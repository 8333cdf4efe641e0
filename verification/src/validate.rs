use vstd::prelude::*;
use crate::pieces::{Move, Owner, BoardPiece, Pos, is_sliding_piece};
use crate::state::{State, spec_apply, make_move, undo_move, lemma_apply_wf, lemma_apply_room, lemma_undo_after_apply};
use crate::attacks::{spec_in_check, is_in_check, find_checkers};
use crate::legal::{spec_legal_moves, legal_moves, spec_has_dead_end_pieces, state_has_dead_end_pieces};
use crate::search::{
    MemoEntry, mate_spec, memo_ok, forced_mate_within, lemma_memo_empty, search, is_wasteful,
    wasteful, sliding_checker, playable, all_playable, lemma_legal_lists_playable,
    full_mate_spec, forced_mate_within_full, lemma_memo_full_empty,
};
use rustc_hash::FxHashMap;

verus! {

/// No mate in fewer plies than `n` (odd lengths only).
pub open spec fn no_shorter_mate(s: State, n: nat, v: bool) -> bool {
    forall|d: nat| d < n && d % 2 == 1 ==> !#[trigger] mate_spec(s, d, v).0
}

/// A valid tsume problem of length `n`: `n` odd, the attacker to move, the
/// defender's king on the board and not in check, a mate in `n` plies and in
/// no fewer, and that mate unique. The answer is the main line.
pub open spec fn spec_validate_tsume(s: State, n: nat) -> Option<Seq<Move>> {
    if n % 2 == 1 && s.side_to_move == Owner::Attacker && s.king_cache(Owner::Defender) is Some
        && !spec_in_check(s, Owner::Defender) && no_shorter_mate(s, n, false) && mate_spec(s, n, false).0
        && mate_spec(s, n, false).1 {
        Some(mate_spec(s, n, false).2)
    } else {
        None
    }
}

/// Checks that the position is a valid tsume problem of `mate_length` plies
/// and returns its solution.
pub fn validate_tsume_puzzle(state: &mut State, mate_length: u32) -> (r: Option<Vec<Move>>)
    requires
        old(state).wf(),
        old(state).room(),
    ensures
        *final(state) == *old(state),
        match r {
            Some(line) => spec_validate_tsume(*old(state), mate_length as nat) == Some(line@),
            None => spec_validate_tsume(*old(state), mate_length as nat) is None,
        },
{
    let ghost s0 = *state;
    if mate_length % 2 == 0 {
        return None;
    }
    if state.side_to_move != Owner::Attacker {
        return None;
    }
    if state.king_pos(Owner::Defender).is_none() {
        return None;
    }
    if is_in_check(state, Owner::Defender) {
        return None;
    }
    let mut memo: FxHashMap<u64, MemoEntry> = FxHashMap::default();
    proof {
        lemma_memo_empty(false);
    }
    let mut d: u32 = 1;
    while d < mate_length
        invariant
            *state == s0,
            s0.wf(),
            s0.room(),
            s0 == *old(state),
            memo_ok(memo@, false),
            d % 2 == 1,
            mate_length % 2 == 1,
            d <= mate_length,
            forall|e: nat| e < d && e % 2 == 1 ==> !#[trigger] mate_spec(s0, e, false).0,
        decreases mate_length - d,
    {
        let r = forced_mate_within(state, d, &mut memo);
        if r.mate {
            assert(mate_spec(s0, d as nat, false).0);
            assert(!no_shorter_mate(s0, mate_length as nat, false));
            return None;
        }
        d = d + 2;
    }
    let within = forced_mate_within(state, mate_length, &mut memo);
    if !within.mate {
        return None;
    }
    if !within.unique {
        return None;
    }
    assert(d == mate_length);
    assert(no_shorter_mate(s0, mate_length as nat, false));
    assert(within.line@ == mate_spec(s0, mate_length as nat, false).2);
    Some(within.line)
}

/// The defender's reply chosen by `find_best_defense` among `ms[i..]`: the
/// first that escapes the mate, otherwise the one with the longest line (the
/// later one on ties); futile interpositions are not considered.
pub open spec fn best_defense_fold(s: State, p: nat, ms: Seq<Move>, i: nat, best: Move, best_len: int) -> Option<Move>
    decreases ms.len() - i,
{
    if i >= ms.len() {
        Some(best)
    } else {
        let m = ms[i as int];
        if wasteful(s, p, true, m) {
            best_defense_fold(s, p, ms, i + 1, best, best_len)
        } else {
            let r = mate_spec(spec_apply(s, m), (p - 1) as nat, true);
            if !r.0 {
                Some(m)
            } else if r.2.len() >= best_len {
                best_defense_fold(s, p, ms, i + 1, m, r.2.len() as int)
            } else {
                best_defense_fold(s, p, ms, i + 1, best, best_len)
            }
        }
    }
}

/// The defender's best reply with `p` plies left: none without a legal
/// move, else `best_defense_fold` over the legal moves.
pub open spec fn spec_best_defense(s: State, p: nat) -> Option<Move> {
    let ms = spec_legal_moves(s);
    if ms.len() == 0 {
        None
    } else {
        best_defense_fold(s, p, ms, 0, ms[0], -1)
    }
}

/// What the mate search answers after reply `m`, with `p - 1` plies left.
#[verifier::opaque]
pub open spec fn after_reply(s: State, p: nat, m: Move) -> (bool, bool, Seq<Move>) {
    mate_spec(spec_apply(s, m), (p - 1) as nat, true)
}

#[verifier::rlimit(60)]
proof fn lemma_fold_resists_longest(s: State, p: nat, ms: Seq<Move>, i: nat, best: Move, best_len: int)
    requires
        i <= ms.len(),
        ms.contains(best),
        best_len >= -1,
        best_len == -1 ==> forall|j: int| 0 <= j < i ==> #[trigger] wasteful(s, p, true, ms[j]),
        best_len >= 0 ==> !wasteful(s, p, true, best) && after_reply(s, p, best).0 && after_reply(s, p, best).2.len()
            == best_len,
        forall|j: int|
            0 <= j < i && !#[trigger] wasteful(s, p, true, ms[j]) ==> after_reply(s, p, ms[j]).0 && after_reply(
                s,
                p,
                ms[j],
            ).2.len() <= best_len,
    ensures
        best_defense_fold(s, p, ms, i, best, best_len) matches Some(b) && ms.contains(b) && (after_reply(s, p, b).0
            ==> forall|j: int|
            0 <= j < ms.len() && !#[trigger] wasteful(s, p, true, ms[j]) ==> after_reply(s, p, ms[j]).0 && after_reply(
                s,
                p,
                ms[j],
            ).2.len() <= after_reply(s, p, b).2.len()) && ((exists|j: int|
            0 <= j < ms.len() && !#[trigger] wasteful(s, p, true, ms[j]) && !after_reply(s, p, ms[j]).0) ==> !after_reply(
            s,
            p,
            b,
        ).0 && !wasteful(s, p, true, b)),
    decreases ms.len() - i,
{
    if i < ms.len() {
        let m = ms[i as int];
        let r = after_reply(s, p, m);
        assert(r == mate_spec(spec_apply(s, m), (p - 1) as nat, true)) by {
            reveal(after_reply);
        }
        assert(ms.contains(m));
        if wasteful(s, p, true, m) {
            assert forall|j: int| 0 <= j < i + 1 && !#[trigger] wasteful(s, p, true, ms[j]) implies after_reply(s, p, ms[j]).0
                && after_reply(s, p, ms[j]).2.len() <= best_len by {
            }
            lemma_fold_resists_longest(s, p, ms, i + 1, best, best_len);
        } else if !r.0 {
        } else if r.2.len() >= best_len {
            assert forall|j: int| 0 <= j < i + 1 && !#[trigger] wasteful(s, p, true, ms[j]) implies after_reply(s, p, ms[j]).0
                && after_reply(s, p, ms[j]).2.len() <= r.2.len() as int by {
            }
            lemma_fold_resists_longest(s, p, ms, i + 1, m, r.2.len() as int);
        } else {
            assert forall|j: int| 0 <= j < i + 1 && !#[trigger] wasteful(s, p, true, ms[j]) implies after_reply(s, p, ms[j]).0
                && after_reply(s, p, ms[j]).2.len() <= best_len by {
            }
            lemma_fold_resists_longest(s, p, ms, i + 1, best, best_len);
        }
    } else {
        if best_len == -1 {
            assert forall|j: int| 0 <= j < ms.len() implies #[trigger] wasteful(s, p, true, ms[j]) by {}
        }
    }
}

/// The best reply resists longest. It exists exactly when the side to move
/// has a legal move, and it is one of them. When some reply that is not a
/// futile interposition escapes the mate, the reply chosen escapes and is not
/// futile. When the reply chosen is mated, every reply that is not futile is
/// mated too, in a line no longer than that of the reply chosen.
pub proof fn lemma_best_defense_resists_longest(s: State, p: nat)
    ensures
        spec_best_defense(s, p) is None <==> spec_legal_moves(s).len() == 0,
        spec_best_defense(s, p) matches Some(b) ==> {
            &&& spec_legal_moves(s).contains(b)
            &&& after_reply(s, p, b).0 ==> forall|m: Move|
                #![trigger wasteful(s, p, true, m)]
                spec_legal_moves(s).contains(m) && !wasteful(s, p, true, m) ==> after_reply(s, p, m).0 && after_reply(
                    s,
                    p,
                    m,
                ).2.len() <= after_reply(s, p, b).2.len()
            &&& (exists|m: Move| #![trigger wasteful(s, p, true, m)]
                spec_legal_moves(s).contains(m) && !wasteful(s, p, true, m) && !after_reply(s, p, m).0) ==> !after_reply(
                s,
                p,
                b,
            ).0 && !wasteful(s, p, true, b)
        },
{
    let ms = spec_legal_moves(s);
    if ms.len() > 0 {
        assert(ms.contains(ms[0]));
        lemma_fold_resists_longest(s, p, ms, 0, ms[0], -1);
        let b = spec_best_defense(s, p).unwrap();
        if after_reply(s, p, b).0 {
            assert forall|m: Move| #![trigger wasteful(s, p, true, m)]
                ms.contains(m) && !wasteful(s, p, true, m) implies after_reply(s, p, m).0 && after_reply(s, p, m).2.len()
                <= after_reply(s, p, b).2.len() by {
                let j = choose|j: int| 0 <= j < ms.len() && ms[j] == m;
                assert(!wasteful(s, p, true, ms[j]));
            }
        }
        if exists|m: Move| #![trigger wasteful(s, p, true, m)]
            ms.contains(m) && !wasteful(s, p, true, m) && !after_reply(s, p, m).0 {
            let m = choose|m: Move| #![trigger wasteful(s, p, true, m)]
                ms.contains(m) && !wasteful(s, p, true, m) && !after_reply(s, p, m).0;
            let j = choose|j: int| 0 <= j < ms.len() && ms[j] == m;
            assert(!wasteful(s, p, true, ms[j]) && !after_reply(s, p, ms[j]).0);
        }
    }
}

/// The best reply (the longest resistance) of the side to move with
/// `remaining_plies` plies left in the problem. With the attacker to move the
/// defender's king must not stand in check from a single sliding piece (the
/// futile-interposition test would then play an illegal capture).
pub fn find_best_defense(state: &mut State, remaining_plies: u32) -> (r: Option<Move>)
    requires
        old(state).wf(),
        old(state).room(),
        old(state).side_to_move == Owner::Defender || sliding_checker(*old(state)) is None,
        remaining_plies >= 1 || spec_legal_moves(*old(state)).len() == 0,
    ensures
        *final(state) == *old(state),
        r == spec_best_defense(*old(state), remaining_plies as nat),
        match r {
            Some(b) => after_reply(*old(state), remaining_plies as nat, b).0 ==> forall|m: Move|
                #![trigger wasteful(*old(state), remaining_plies as nat, true, m)]
                spec_legal_moves(*old(state)).contains(m) && !wasteful(*old(state), remaining_plies as nat, true, m)
                    ==> after_reply(*old(state), remaining_plies as nat, m).0 && after_reply(
                    *old(state),
                    remaining_plies as nat,
                    m,
                ).2.len() <= after_reply(*old(state), remaining_plies as nat, b).2.len(),
            None => true,
        },
        match r {
            Some(b) => spec_legal_moves(*old(state)).contains(b) && ((exists|m: Move|
                #![trigger wasteful(*old(state), remaining_plies as nat, true, m)]
                spec_legal_moves(*old(state)).contains(m) && !wasteful(*old(state), remaining_plies as nat, true, m)
                    && !after_reply(*old(state), remaining_plies as nat, m).0) ==> !after_reply(
                *old(state),
                remaining_plies as nat,
                b,
            ).0 && !wasteful(*old(state), remaining_plies as nat, true, b)),
            None => spec_legal_moves(*old(state)).len() == 0,
        },
{
    let ghost s0 = *state;
    let moves = legal_moves(state);
    if moves.len() == 0 {
        return None;
    }
    proof {
        lemma_legal_lists_playable(s0);
        lemma_memo_empty(true);
    }
    let mut memo: FxHashMap<u64, MemoEntry> = FxHashMap::default();
    let kp = state.king_pos(Owner::Defender);
    let checkers = find_checkers(state, Owner::Defender);
    let sliding = if checkers.len() == 1 && is_sliding_piece(checkers[0].1.piece_type) {
        Some(checkers[0])
    } else {
        None
    };
    let mut best_move = moves[0];
    let mut best_len: usize = 0;
    let mut have_best = false;
    let mut k: usize = 0;
    while k < moves.len()
        invariant
            k <= moves@.len(),
            *state == s0,
            s0 == *old(state),
            s0.wf(),
            s0.room(),
            s0.side_to_move == Owner::Defender || sliding_checker(s0) is None,
            remaining_plies >= 1,
            memo_ok(memo@, true),
            moves@ == spec_legal_moves(s0),
            moves@.len() > 0,
            all_playable(s0, moves@),
            sliding == sliding_checker(s0),
            kp == s0.king_cache(Owner::Defender),
            spec_best_defense(s0, remaining_plies as nat) == best_defense_fold(
                s0,
                remaining_plies as nat,
                moves@,
                k as nat,
                best_move,
                if have_best { best_len as int } else { -1 },
            ),
        decreases moves.len() - k,
    {
        let m = moves[k];
        assert(playable(s0, moves@[k as int]));
        let futile = if state.side_to_move == Owner::Defender {
            is_wasteful(state, &m, remaining_plies, sliding, kp, &mut memo, true)
        } else {
            false
        };
        if futile {
            k = k + 1;
        } else {
            proof {
                lemma_apply_wf(s0, m);
                lemma_apply_room(s0, m);
                lemma_undo_after_apply(s0, m);
            }
            let undo = make_move(state, &m);
            let result = search(state, remaining_plies - 1, &mut memo, true);
            undo_move(state, &m, &undo);
            if !result.mate {
                proof {
                    lemma_best_defense_resists_longest(s0, remaining_plies as nat);
                }
                return Some(m);
            }
            if !have_best || result.line.len() >= best_len {
                best_len = result.line.len();
                best_move = m;
                have_best = true;
            }
            k = k + 1;
        }
    }
    proof {
        lemma_best_defense_resists_longest(s0, remaining_plies as nat);
    }
    Some(best_move)
}

/// A valid problem for the browser checker: as `spec_validate_tsume`, with
/// the attacker's moves from `legal_check_moves`, and with pieces that could
/// never move again refused in place of a check on the defender's king.
pub open spec fn spec_validate_tsume_js(s: State, n: nat) -> Option<Seq<Move>> {
    if n % 2 == 1 && s.side_to_move == Owner::Attacker && s.king_cache(Owner::Defender) is Some
        && !spec_has_dead_end_pieces(s) && no_shorter_mate(s, n, true) && mate_spec(s, n, true).0
        && mate_spec(s, n, true).1 {
        Some(mate_spec(s, n, true).2)
    } else {
        None
    }
}

/// Checks a problem the way the browser does and returns its solution.
pub fn validate_tsume_puzzle_js(state: &mut State, mate_length: u32) -> (r: Option<Vec<Move>>)
    requires
        old(state).wf(),
        old(state).room(),
    ensures
        *final(state) == *old(state),
        match r {
            Some(line) => spec_validate_tsume_js(*old(state), mate_length as nat) == Some(line@),
            None => spec_validate_tsume_js(*old(state), mate_length as nat) is None,
        },
{
    let ghost s0 = *state;
    if mate_length % 2 == 0 {
        return None;
    }
    if state.side_to_move != Owner::Attacker {
        return None;
    }
    if state.king_pos(Owner::Defender).is_none() {
        return None;
    }
    if state_has_dead_end_pieces(state) {
        return None;
    }
    let mut memo: FxHashMap<u64, MemoEntry> = FxHashMap::default();
    proof {
        lemma_memo_empty(true);
    }
    let mut d: u32 = 1;
    while d < mate_length
        invariant
            *state == s0,
            s0 == *old(state),
            s0.wf(),
            s0.room(),
            memo_ok(memo@, true),
            d % 2 == 1,
            mate_length % 2 == 1,
            d <= mate_length,
            forall|e: nat| e < d && e % 2 == 1 ==> !#[trigger] mate_spec(s0, e, true).0,
        decreases mate_length - d,
    {
        let r = search(state, d, &mut memo, true);
        if r.mate {
            assert(mate_spec(s0, d as nat, true).0);
            assert(!no_shorter_mate(s0, mate_length as nat, true));
            return None;
        }
        d = d + 2;
    }
    let result = search(state, mate_length, &mut memo, true);
    if !result.mate || !result.unique {
        return None;
    }
    assert(d == mate_length);
    assert(no_shorter_mate(s0, mate_length as nat, true));
    assert(result.line@ == mate_spec(s0, mate_length as nat, true).2);
    Some(result.line)
}

/// A valid problem for the full-width search of problem generation: `n`
/// odd, the attacker to move, both kings on the board, the defender's king
/// not in check, a mate within `n` plies, none within `n - 2`, and that mate
/// unique. The answer is the main line.
pub open spec fn spec_validate_tsume_full(s: State, n: nat) -> Option<Seq<Move>> {
    if n % 2 == 0 || s.side_to_move != Owner::Attacker || s.king_cache(Owner::Attacker) is None
        || s.king_cache(Owner::Defender) is None || spec_in_check(s, Owner::Defender) {
        None
    } else {
        let w = full_mate_spec(s, n);
        if !w.0 {
            None
        } else if n >= 3 && full_mate_spec(s, (n - 2) as nat).0 {
            None
        } else if !w.1 {
            None
        } else {
            Some(w.2)
        }
    }
}

/// Checks a problem with the full-width search of problem generation and
/// returns its solution.
pub fn validate_tsume_puzzle_full(state: &mut State, mate_length: u32) -> (r: Option<Vec<Move>>)
    requires
        old(state).wf(),
        old(state).room(),
    ensures
        *final(state) == *old(state),
        match r {
            Some(line) => spec_validate_tsume_full(*old(state), mate_length as nat) == Some(line@),
            None => spec_validate_tsume_full(*old(state), mate_length as nat) is None,
        },
{
    if mate_length % 2 == 0 {
        return None;
    }
    if state.side_to_move != Owner::Attacker {
        return None;
    }
    if state.king_pos(Owner::Attacker).is_none() || state.king_pos(Owner::Defender).is_none() {
        return None;
    }
    if is_in_check(state, Owner::Defender) {
        return None;
    }
    let mut memo: FxHashMap<u64, MemoEntry> = FxHashMap::default();
    proof {
        lemma_memo_full_empty();
    }
    let within = forced_mate_within_full(state, mate_length, &mut memo);
    if !within.mate {
        return None;
    }
    if mate_length >= 3 {
        let shorter = forced_mate_within_full(state, mate_length - 2, &mut memo);
        if shorter.mate {
            return None;
        }
    }
    if !within.unique {
        return None;
    }
    Some(within.line)
}

} // verus!

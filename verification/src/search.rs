use vstd::prelude::*;
use crate::pieces::{
    BoardPiece, Move, Owner, PieceType, Pos, spec_is_sliding_piece, spec_promotion_zone,
};
use crate::state::{
    State, spec_apply, move_to_pos, move_from_pos, lemma_state_ext, law_ok, make_move, undo_move,
    lemma_apply_wf, lemma_apply_room, lemma_undo_after_apply, lemma_idx_injective, lemma_room_capture,
};
use crate::pieces::{is_sliding_piece, promotion_zone};
use crate::attacks::{is_in_check, find_checkers, is_between, lemma_checkers_ok, checker_ok};
use crate::movegen::legal_board_moves;
use crate::legal::{
    legal_drop_moves, legal_moves, legal_check_moves, lemma_legal_moves_are_legal,
    lemma_check_moves_law_ok, move_gives_check, push_category, lemma_filter_take_step,
    lemma_by_category_contains, category_is,
};
use rustc_hash::{FxBuildHasher, FxHashMap};
use crate::attacks::{spec_in_check, spec_checkers, spec_is_between};
use crate::movegen::spec_legal_board_moves;
use crate::legal::{
    spec_legal_drops, spec_legal_moves, spec_legal_check_moves, by_category, gives_check_in,
};

verus! {

/// The outcome of a mate search: whether the side to move is mated within
/// the plies searched, whether that mate is unique, and a main line.
#[derive(Debug, Clone)]
pub struct MateResult {
    pub mate: bool,
    pub unique: bool,
    pub line: Vec<Move>,
}

impl View for MateResult {
    type V = (bool, bool, Seq<Move>);

    open spec fn view(&self) -> (bool, bool, Seq<Move>) {
        (self.mate, self.unique, self.line@)
    }
}

pub open spec fn no_mate() -> (bool, bool, Seq<Move>) {
    (false, false, seq![])
}

/// The order in which mating moves are ranked, the order of their text keys
/// (`to_string_key`): board moves before drops; board moves by origin file,
/// origin rank, target file, target rank, the non-promoting one first; drops
/// by the letter of the piece kind, then target file and rank.
pub open spec fn move_rank(m: Move) -> (int, int, int, int, int, int) {
    match m.drop {
        Some(t) => (1, kind_letter(t), m.to[0] as int, m.to[1] as int, 0, 0),
        None => match m.from {
            Some(f) => (0, f[0] as int, f[1] as int, m.to[0] as int, m.to[1] as int, if m.promote {
                1
            } else {
                0
            }),
            None => (-1, 0, 0, 0, 0, 0),
        },
    }
}

/// The first letter of a piece kind's name.
pub open spec fn kind_letter(t: PieceType) -> int {
    match t {
        PieceType::K => 'K' as int,
        PieceType::R => 'R' as int,
        PieceType::B => 'B' as int,
        PieceType::G => 'G' as int,
        PieceType::S => 'S' as int,
        PieceType::N => 'N' as int,
        PieceType::L => 'L' as int,
        PieceType::P => 'P' as int,
        _ => 'P' as int,
    }
}

pub open spec fn rank_less(a: (int, int, int, int, int, int), b: (int, int, int, int, int, int)) -> bool {
    ||| a.0 < b.0
    ||| a.0 == b.0 && a.1 < b.1
    ||| a.0 == b.0 && a.1 == b.1 && a.2 < b.2
    ||| a.0 == b.0 && a.1 == b.1 && a.2 == b.2 && a.3 < b.3
    ||| a.0 == b.0 && a.1 == b.1 && a.2 == b.2 && a.3 == b.3 && a.4 < b.4
    ||| a.0 == b.0 && a.1 == b.1 && a.2 == b.2 && a.3 == b.3 && a.4 == b.4 && a.5 < b.5
}

pub open spec fn key_less(a: Move, b: Move) -> bool {
    rank_less(move_rank(a), move_rank(b))
}

/// The attacker's candidate moves: its legal checking moves, stably sorted
/// by `move_category`; with `gen_checks` they come from
/// `legal_check_moves`, otherwise from `legal_moves`.
pub open spec fn attacker_moves(s: State, gen_checks: bool) -> Seq<Move> {
    if gen_checks {
        spec_legal_check_moves(s)
    } else {
        by_category(s, spec_legal_moves(s).filter(gives_check_in(s)))
    }
}

/// The one checker of the defender's king, when it is a single sliding piece.
pub open spec fn sliding_checker(s: State) -> Option<(Pos, BoardPiece)> {
    let cks = spec_checkers(s, Owner::Defender);
    if cks.len() == 1 && spec_is_sliding_piece(cks[0].1.piece_type) {
        Some(cks[0])
    } else {
        None
    }
}

/// The checker taking a piece interposed on `to`, promoting when it may.
pub open spec fn recapture(ck: (Pos, BoardPiece), to: Pos) -> Move {
    Move {
        from: Some([ck.0.x, ck.0.y]),
        to: [to.x, to.y],
        drop: None,
        promote: ck.1.piece_type.spec_is_promotable() && (spec_promotion_zone(Owner::Attacker, ck.0.y as int)
            || spec_promotion_zone(Owner::Attacker, to.y as int)),
    }
}

/// `m` puts a piece (not the king) between a single sliding checker and the
/// defender's king.
pub open spec fn is_interposition(s: State, m: Move) -> bool {
    match (sliding_checker(s), s.king_cache(Owner::Defender)) {
        (Some(ck), Some(kp)) => {
            &&& spec_is_between(ck.0, kp, move_to_pos(m))
            &&& !(m.from is Some && s.at(move_from_pos(m).spec_idx()) is Some && s.at(
                move_from_pos(m).spec_idx(),
            ).unwrap().piece_type == PieceType::K)
        },
        _ => false,
    }
}

/// The defender's running tally: every reply so far is mated, every such
/// mate is unique, and the reply with the longest line (the later one on
/// ties) with that line.
pub open spec fn start_tally() -> (bool, bool, Option<Move>, Seq<Move>) {
    (true, true, None, seq![])
}

/// An interposition is futile when the checker takes it and still mates in
/// the plies left.
pub open spec fn wasteful(s: State, p: nat, v: bool, m: Move) -> bool
    decreases p, 0int, 0int,
{
    if p >= 2 && is_interposition(s, m) {
        let a = spec_apply(s, m);
        mate_spec(
            spec_apply(a, recapture(sliding_checker(s).unwrap(), move_to_pos(m))),
            (p - 2) as nat,
            v,
        ).0
    } else {
        false
    }
}

/// The defender's replies `ms[i..]` folded into `acc`, skipping futile
/// interpositions and stopping at the first reply that escapes.
pub open spec fn def_fold(
    s: State,
    p: nat,
    v: bool,
    ms: Seq<Move>,
    i: nat,
    acc: (bool, bool, Option<Move>, Seq<Move>),
) -> (bool, bool, Option<Move>, Seq<Move>)
    decreases p, 1int, ms.len() - i,
{
    if p == 0 || i >= ms.len() || !acc.0 {
        acc
    } else {
        let m = ms[i as int];
        if wasteful(s, p, v, m) {
            def_fold(s, p, v, ms, i + 1, acc)
        } else {
            let r = mate_spec(spec_apply(s, m), (p - 1) as nat, v);
            if !r.0 {
                (false, acc.1, acc.2, acc.3)
            } else if r.2.len() >= acc.3.len() {
                def_fold(s, p, v, ms, i + 1, (true, acc.1 && r.1, Some(m), r.2))
            } else {
                def_fold(s, p, v, ms, i + 1, (true, acc.1 && r.1, acc.2, acc.3))
            }
        }
    }
}

/// The attacker's moves `ms[i..]` folded into `acc`: the number of mating
/// moves, and the lowest-ranked one (the first on ties) with its result.
pub open spec fn att_fold(
    s: State,
    p: nat,
    v: bool,
    ms: Seq<Move>,
    i: nat,
    acc: (nat, Option<(Move, (bool, bool, Seq<Move>))>),
) -> (nat, Option<(Move, (bool, bool, Seq<Move>))>)
    decreases p, 1int, ms.len() - i,
{
    if p == 0 || i >= ms.len() {
        acc
    } else {
        let m = ms[i as int];
        let r = mate_spec(spec_apply(s, m), (p - 1) as nat, v);
        let next = if !r.0 {
            acc
        } else {
            (
                acc.0 + 1,
                match acc.1 {
                    None => Some((m, r)),
                    Some(b) => if key_less(m, b.0) {
                        Some((m, r))
                    } else {
                        acc.1
                    },
                },
            )
        };
        att_fold(s, p, v, ms, i + 1, next)
    }
}

/// Whether the side to move in `s` is mated within `p` plies, the attacker
/// giving check on every move and the defender choosing its best reply
/// (futile interpositions aside); whether the mate is unique; and a main
/// line. `v` selects the attacker's move generator (`attacker_moves`).
pub open spec fn mate_spec(s: State, p: nat, v: bool) -> (bool, bool, Seq<Move>)
    decreases p, 2int, 0int,
{
    if s.side_to_move == Owner::Defender {
        let bm = spec_legal_board_moves(s);
        let dm = spec_legal_drops(s);
        if p == 0 {
            if bm.len() == 0 && dm.len() == 0 {
                (spec_in_check(s, Owner::Defender), true, seq![])
            } else {
                no_mate()
            }
        } else {
            let a1 = def_fold(s, p, v, bm, 0, start_tally());
            if !a1.0 {
                no_mate()
            } else if bm.len() == 0 && dm.len() == 0 {
                (spec_in_check(s, Owner::Defender), true, seq![])
            } else {
                let a2 = def_fold(s, p, v, dm, 0, a1);
                if !a2.0 {
                    no_mate()
                } else {
                    match a2.2 {
                        Some(b) => (true, a2.1, seq![b] + a2.3),
                        None => (true, true, seq![]),
                    }
                }
            }
        }
    } else if p == 0 {
        no_mate()
    } else {
        let acc = att_fold(s, p, v, attacker_moves(s, v), 0, (0, None));
        match acc.1 {
            None => no_mate(),
            Some(b) => (true, acc.0 == 1 && b.1.1, seq![b.0] + b.1.2),
        }
    }
}

#[verifier::external_type_specification]
#[verifier::external_body]
pub struct ExFxBuildHasher(FxBuildHasher);

/// A remembered search result: the position, the plies searched and what
/// the search found.
#[derive(Debug, Clone)]
pub struct MemoEntry {
    pub state: State,
    pub plies: u32,
    pub result: MateResult,
}

/// Every remembered result is the search result of its position and plies.
pub closed spec fn memo_ok(m: Map<u64, MemoEntry>, v: bool) -> bool {
    forall|k: u64| #[trigger] m.dom().contains(k) ==> m[k].result@ == mate_spec(m[k].state, m[k].plies as nat, v)
}

/// `HashMap::get` on the memo (an `FxHashMap` of rustc_hash), the entry
/// cloned: it is the entry last inserted under `k`, if any.
#[verifier::external_body]
pub(crate) fn memo_get(memo: &FxHashMap<u64, MemoEntry>, k: u64) -> (r: Option<MemoEntry>)
    ensures
        match r {
            Some(e) => memo@.dom().contains(k) && e.state == memo@[k].state && e.plies == memo@[k].plies
                && e.result@ == memo@[k].result@,
            None => !memo@.dom().contains(k),
        },
{
    memo.get(&k).cloned()
}

/// `HashMap::insert` on the memo: afterwards `k` maps to `e`, the other
/// entries unchanged.
#[verifier::external_body]
pub(crate) fn memo_insert(memo: &mut FxHashMap<u64, MemoEntry>, k: u64, e: MemoEntry)
    ensures
        final(memo)@ == old(memo)@.insert(k, e),
{
    memo.insert(k, e);
}

/// The memo key of a position searched to `plies`: its hash mixed with the
/// plies left.
fn state_key(state: &State, plies: u32) -> u64 {
    state.zobrist_hash.wrapping_mul(0x9E3779B97F4A7C15u64).wrapping_add(plies as u64)
}

fn same_square(a: Option<BoardPiece>, b: Option<BoardPiece>) -> (r: bool)
    ensures
        r == (a == b),
{
    match (a, b) {
        (None, None) => true,
        (Some(x), Some(y)) => x.owner == y.owner && x.piece_type == y.piece_type,
        _ => false,
    }
}

fn same_pos(a: Option<Pos>, b: Option<Pos>) -> (r: bool)
    ensures
        r == (a == b),
{
    match (a, b) {
        (None, None) => true,
        (Some(x), Some(y)) => x.x == y.x && x.y == y.y,
        _ => false,
    }
}

/// Whether two positions are identical in every part.
fn same_state(a: &State, b: &State) -> (r: bool)
    ensures
        r == (*a == *b),
{
    let mut i: usize = 0;
    while i < 81
        invariant
            i <= 81,
            forall|j: int| 0 <= j < i ==> a.board@[j] == b.board@[j],
        decreases 81 - i,
    {
        if !same_square(a.board[i], b.board[i]) {
            return false;
        }
        i = i + 1;
    }
    let mut h: usize = 0;
    while h < 7
        invariant
            h <= 7,
            forall|j: int| 0 <= j < h ==> a.hands.attacker@[j] == b.hands.attacker@[j]
                && a.hands.defender@[j] == b.hands.defender@[j],
        decreases 7 - h,
    {
        if a.hands.attacker[h] != b.hands.attacker[h] || a.hands.defender[h] != b.hands.defender[h] {
            return false;
        }
        h = h + 1;
    }
    if a.side_to_move != b.side_to_move || a.zobrist_hash != b.zobrist_hash {
        return false;
    }
    if !same_pos(a.attacker_king, b.attacker_king) || !same_pos(a.defender_king, b.defender_king) {
        return false;
    }
    proof {
        assert(a.board@ =~= b.board@);
        assert(a.hands.attacker@ =~= b.hands.attacker@);
        assert(a.hands.defender@ =~= b.hands.defender@);
        lemma_state_ext(*a, *b);
    }
    true
}

/// A copy of a move list.
fn copy_line(v: &Vec<Move>) -> (r: Vec<Move>)
    ensures
        r@ == v@,
{
    let mut out: Vec<Move> = Vec::new();
    let mut i: usize = 0;
    while i < v.len()
        invariant
            i <= v@.len(),
            out@ == v@.take(i as int),
        decreases v.len() - i,
    {
        out.push(v[i]);
        assert(out@ =~= v@.take(i + 1));
        i = i + 1;
    }
    assert(v@.take(v@.len() as int) =~= v@);
    out
}

fn copy_result(r: &MateResult) -> (c: MateResult)
    ensures
        c@ == r@,
{
    MateResult { mate: r.mate, unique: r.unique, line: copy_line(&r.line) }
}

fn no_mate_result() -> (r: MateResult)
    ensures
        r@ == no_mate(),
{
    MateResult { mate: false, unique: false, line: Vec::new() }
}

fn kind_letter_exec(t: PieceType) -> (r: i32)
    ensures
        r as int == kind_letter(t),
{
    match t {
        PieceType::K => 75,
        PieceType::R => 82,
        PieceType::B => 66,
        PieceType::G => 71,
        PieceType::S => 83,
        PieceType::N => 78,
        PieceType::L => 76,
        _ => 80,
    }
}

fn move_rank_exec(m: &Move) -> (r: (i32, i32, i32, i32, i32, i32))
    ensures
        (r.0 as int, r.1 as int, r.2 as int, r.3 as int, r.4 as int, r.5 as int) == move_rank(*m),
{
    match m.drop {
        Some(t) => (1, kind_letter_exec(t), m.to[0] as i32, m.to[1] as i32, 0, 0),
        None => match m.from {
            Some(f) => (0, f[0] as i32, f[1] as i32, m.to[0] as i32, m.to[1] as i32, if m.promote {
                1
            } else {
                0
            }),
            None => (-1, 0, 0, 0, 0, 0),
        },
    }
}

/// Whether `a` ranks before `b` in the order of their text keys.
fn key_less_exec(a: &Move, b: &Move) -> (r: bool)
    ensures
        r == key_less(*a, *b),
{
    let x = move_rank_exec(a);
    let y = move_rank_exec(b);
    x.0 < y.0 || (x.0 == y.0 && x.1 < y.1) || (x.0 == y.0 && x.1 == y.1 && x.2 < y.2) || (x.0 == y.0
        && x.1 == y.1 && x.2 == y.2 && x.3 < y.3) || (x.0 == y.0 && x.1 == y.1 && x.2 == y.2 && x.3
        == y.3 && x.4 < y.4) || (x.0 == y.0 && x.1 == y.1 && x.2 == y.2 && x.3 == y.3 && x.4 == y.4
        && x.5 < y.5)
}

/// A move that can be played from `s`, with its origin on the board when it
/// has one.
pub open spec fn playable(s: State, m: Move) -> bool {
    law_ok(s, m) && (m.from is Some ==> move_from_pos(m).spec_valid())
}

pub open spec fn all_playable(s: State, ms: Seq<Move>) -> bool {
    forall|j: int| 0 <= j < ms.len() ==> #[trigger] playable(s, ms[j])
}

/// The legal board moves and the legal drops can all be played.
pub proof fn lemma_legal_lists_playable(s: State)
    requires
        s.wf(),
        s.room(),
    ensures
        all_playable(s, spec_legal_board_moves(s)),
        all_playable(s, spec_legal_drops(s)),
        all_playable(s, spec_legal_moves(s)),
{
    lemma_legal_moves_are_legal(s);
    let bm = spec_legal_board_moves(s);
    let dm = spec_legal_drops(s);
    let all = spec_legal_moves(s);
    assert forall|j: int| 0 <= j < all.len() implies #[trigger] playable(s, all[j]) by {
        assert(law_ok(s, all[j]));
        if all[j].drop is Some {
            if j < bm.len() {
                crate::legal::lemma_board_upto_legal(s, 81);
                assert(all[j] == bm[j]);
            } else {
                let m = all[j];
                assert(m == dm[j - bm.len()]);
                assert(dm.contains(m));
                crate::legal::lemma_candidates_shape(s);
                crate::legal::drop_candidates(s).lemma_filter_contains_rev(crate::legal::drop_legal_in(s), m);
                let i = choose|i: int| 0 <= i < crate::legal::drop_candidates(s).len() && crate::legal::drop_candidates(s)[i] == m;
                assert(crate::legal::drop_shape(s, crate::legal::drop_candidates(s)[i]));
            }
        }
    }
    assert forall|j: int| 0 <= j < bm.len() implies #[trigger] playable(s, bm[j]) by {
        assert(all[j] == bm[j]);
    }
    assert forall|j: int| 0 <= j < dm.len() implies #[trigger] playable(s, dm[j]) by {
        assert(all[bm.len() + j] == dm[j]);
    }
}

/// The attacker's candidate moves can all be played.
pub proof fn lemma_attacker_moves_playable(s: State, v: bool)
    requires
        s.wf(),
        s.room(),
    ensures
        all_playable(s, attacker_moves(s, v)),
{
    broadcast use vstd::seq_lib::group_filter_ensures;
    let ms = attacker_moves(s, v);
    assert forall|j: int| 0 <= j < ms.len() implies #[trigger] playable(s, ms[j]) by {
        let m = ms[j];
        assert(ms.contains(m));
        if v {
            lemma_check_moves_law_ok(s);
            assert(law_ok(s, m));
            if m.drop is Some && m.from is Some {
                let board = spec_legal_board_moves(s);
                let drops = crate::movegen::spec_pseudo_drops(s, s.side_to_move);
                let bc = board.filter(gives_check_in(s));
                let dc = drops.filter(crate::legal::checking_drop_in(s));
                lemma_by_category_contains(s, bc + dc, m);
                crate::legal::lemma_concat_contains(bc, dc, m);
                crate::legal::lemma_board_upto_legal(s, 81);
                crate::legal::lemma_pseudo_drops_shape(s, 567);
                if bc.contains(m) {
                    board.lemma_filter_contains_rev(gives_check_in(s), m);
                    let i = choose|i: int| 0 <= i < board.len() && board[i] == m;
                    assert(board[i].drop is None);
                } else {
                    drops.lemma_filter_contains_rev(crate::legal::checking_drop_in(s), m);
                    let i = choose|i: int| 0 <= i < drops.len() && drops[i] == m;
                    assert(crate::legal::drop_shape(s, drops[i]));
                }
            }
        } else {
            let lm = spec_legal_moves(s);
            lemma_by_category_contains(s, lm.filter(gives_check_in(s)), m);
            lm.lemma_filter_contains_rev(gives_check_in(s), m);
            lemma_legal_lists_playable(s);
            let i = choose|i: int| 0 <= i < lm.len() && lm[i] == m;
            assert(playable(s, lm[i]));
        }
    }
}

/// The defender's running tally during a search.
struct Tally {
    all_mate: bool,
    all_unique: bool,
    best_move: Option<Move>,
    best_line: Vec<Move>,
}

spec fn tally_view(t: Tally) -> (bool, bool, Option<Move>, Seq<Move>) {
    (t.all_mate, t.all_unique, t.best_move, t.best_line@)
}

spec fn att_view(count: usize, best_move: Option<Move>, best: MateResult) -> (
    nat,
    Option<(Move, (bool, bool, Seq<Move>))>,
) {
    (
        count as nat,
        match best_move {
            None => None,
            Some(m) => Some((m, best@)),
        },
    )
}

/// After the defender interposes with `m`, the checker can take the
/// interposed piece.
pub proof fn lemma_recapture_ok(s: State, m: Move, ck_pos: Pos, ck_bp: BoardPiece)
    requires
        s.wf(),
        s.room(),
        s.side_to_move == Owner::Defender,
        playable(s, m),
        ck_pos.spec_valid(),
        s.at(ck_pos.spec_idx()) == Some(ck_bp),
        ck_bp.owner == Owner::Attacker,
        ck_pos != move_to_pos(m),
    ensures
        law_ok(spec_apply(s, m), recapture((ck_pos, ck_bp), move_to_pos(m))),
{
    let to_pos = move_to_pos(m);
    let a = spec_apply(s, m);
    let recap = recapture((ck_pos, ck_bp), to_pos);
    lemma_apply_wf(s, m);
    lemma_apply_room(s, m);
    if ck_pos.spec_idx() == to_pos.spec_idx() {
        lemma_idx_injective(ck_pos, to_pos);
    }
    if m.drop is None {
        let fp = move_from_pos(m);
        if ck_pos.spec_idx() == fp.spec_idx() {
            lemma_idx_injective(ck_pos, fp);
        }
    }
    assert(a.at(ck_pos.spec_idx()) == Some(ck_bp));
    lemma_room_capture(a, recap);
}

/// Whether the defender's move `m` is a futile interposition.
#[verifier::rlimit(60)]
pub(crate) fn is_wasteful(
    state: &mut State,
    m: &Move,
    plies: u32,
    sliding: Option<(Pos, BoardPiece)>,
    kp: Option<Pos>,
    memo: &mut FxHashMap<u64, MemoEntry>,
    v: bool,
) -> (r: bool)
    requires
        old(state).wf(),
        old(state).room(),
        old(state).side_to_move == Owner::Defender,
        playable(*old(state), *m),
        memo_ok(old(memo)@, v),
        sliding == sliding_checker(*old(state)),
        kp == old(state).king_cache(Owner::Defender),
    ensures
        *final(state) == *old(state),
        memo_ok(final(memo)@, v),
        r == wasteful(*old(state), plies as nat, v, *m),
    decreases plies, 0int,
{
    let ghost s0 = *state;
    if plies < 2 {
        return false;
    }
    let (ck_pos, ck_bp) = match sliding {
        Some(c) => c,
        None => {
            return false;
        },
    };
    let king = match kp {
        Some(p) => p,
        None => {
            return false;
        },
    };
    let to_pos = Pos::new(m.to[0], m.to[1]);
    proof {
        lemma_checkers_ok(s0, Owner::Defender);
        assert(checker_ok(s0, king, Owner::Attacker, spec_checkers(s0, Owner::Defender)[0]));
    }
    if !is_between(ck_pos, king, to_pos) {
        return false;
    }
    match m.from {
        Some(from) => {
            match state.get(Pos::new(from[0], from[1])) {
                Some(bp) => {
                    if bp.piece_type == PieceType::K {
                        return false;
                    }
                },
                None => {},
            }
        },
        None => {},
    }
    let can_promote = ck_bp.piece_type.is_promotable() && (promotion_zone(Owner::Attacker, ck_pos.y)
        || promotion_zone(Owner::Attacker, to_pos.y));
    let recap = Move {
        from: Some([ck_pos.x, ck_pos.y]),
        to: [to_pos.x, to_pos.y],
        drop: None,
        promote: can_promote,
    };
    proof {
        lemma_apply_wf(s0, *m);
        lemma_apply_room(s0, *m);
        lemma_undo_after_apply(s0, *m);
        assert(recap == recapture((ck_pos, ck_bp), to_pos));
        assert(ck_pos != to_pos);
        lemma_recapture_ok(s0, *m, ck_pos, ck_bp);
        let a = spec_apply(s0, *m);
        lemma_apply_wf(a, recap);
        lemma_apply_room(a, recap);
        lemma_undo_after_apply(a, recap);
    }
    let undo1 = make_move(state, m);
    let undo2 = make_move(state, &recap);
    let r = search(state, plies - 2, memo, v);
    undo_move(state, &recap, &undo2);
    undo_move(state, m, &undo1);
    r.mate
}

/// Fold the defender's replies `ms` into the tally.
fn defend_fold(
    state: &mut State,
    plies: u32,
    ms: &Vec<Move>,
    tally: &mut Tally,
    memo: &mut FxHashMap<u64, MemoEntry>,
    v: bool,
    sliding: Option<(Pos, BoardPiece)>,
    kp: Option<Pos>,
)
    requires
        old(state).wf(),
        old(state).room(),
        old(state).side_to_move == Owner::Defender,
        plies >= 1,
        memo_ok(old(memo)@, v),
        sliding == sliding_checker(*old(state)),
        kp == old(state).king_cache(Owner::Defender),
        all_playable(*old(state), ms@),
    ensures
        *final(state) == *old(state),
        memo_ok(final(memo)@, v),
        tally_view(*final(tally)) == def_fold(*old(state), plies as nat, v, ms@, 0, tally_view(*old(tally))),
    decreases plies, 1int,
{
    let ghost s0 = *state;
    let ghost t0 = tally_view(*tally);
    let mut k: usize = 0;
    while k < ms.len() && tally.all_mate
        invariant
            k <= ms@.len(),
            *state == s0,
            s0 == *old(state),
            t0 == tally_view(*old(tally)),
            s0.wf(),
            s0.room(),
            s0.side_to_move == Owner::Defender,
            plies >= 1,
            memo_ok(memo@, v),
            sliding == sliding_checker(s0),
            kp == s0.king_cache(Owner::Defender),
            all_playable(s0, ms@),
            def_fold(s0, plies as nat, v, ms@, 0, t0) == def_fold(s0, plies as nat, v, ms@, k as nat, tally_view(*tally)),
        decreases ms.len() - k, if tally.all_mate { 1int } else { 0int },
    {
        let m = ms[k];
        assert(playable(s0, ms@[k as int]));
        if is_wasteful(state, &m, plies, sliding, kp, memo, v) {
            k = k + 1;
        } else {
            proof {
                lemma_apply_wf(s0, m);
                lemma_apply_room(s0, m);
                lemma_undo_after_apply(s0, m);
            }
            let undo = make_move(state, &m);
            let r = search(state, plies - 1, memo, v);
            undo_move(state, &m, &undo);
            if !r.mate {
                tally.all_mate = false;
            } else {
                if !r.unique {
                    tally.all_unique = false;
                }
                if r.line.len() >= tally.best_line.len() {
                    tally.best_move = Some(m);
                    tally.best_line = r.line;
                }
                k = k + 1;
            }
        }
    }
}

/// Fold the attacker's moves `ms` into the count of mating moves and the
/// lowest-ranked mating move with its result.
fn attack_fold(
    state: &mut State,
    plies: u32,
    ms: &Vec<Move>,
    count: &mut usize,
    best_move: &mut Option<Move>,
    best: &mut MateResult,
    memo: &mut FxHashMap<u64, MemoEntry>,
    v: bool,
)
    requires
        old(state).wf(),
        old(state).room(),
        plies >= 1,
        *old(count) == 0,
        memo_ok(old(memo)@, v),
        all_playable(*old(state), ms@),
    ensures
        *final(state) == *old(state),
        memo_ok(final(memo)@, v),
        att_view(*final(count), *final(best_move), *final(best)) == att_fold(
            *old(state),
            plies as nat,
            v,
            ms@,
            0,
            att_view(*old(count), *old(best_move), *old(best)),
        ),
    decreases plies, 1int,
{
    let ghost s0 = *state;
    let ghost a0 = att_view(*count, *best_move, *best);
    let mut k: usize = 0;
    while k < ms.len()
        invariant
            k <= ms@.len(),
            *count <= k,
            *state == s0,
            s0 == *old(state),
            a0 == att_view(*old(count), *old(best_move), *old(best)),
            s0.wf(),
            s0.room(),
            plies >= 1,
            memo_ok(memo@, v),
            all_playable(s0, ms@),
            att_fold(s0, plies as nat, v, ms@, 0, a0) == att_fold(
                s0,
                plies as nat,
                v,
                ms@,
                k as nat,
                att_view(*count, *best_move, *best),
            ),
        decreases ms.len() - k,
    {
        let m = ms[k];
        assert(playable(s0, ms@[k as int]));
        proof {
            lemma_apply_wf(s0, m);
            lemma_apply_room(s0, m);
            lemma_undo_after_apply(s0, m);
        }
        let undo = make_move(state, &m);
        let r = search(state, plies - 1, memo, v);
        undo_move(state, &m, &undo);
        if r.mate {
            *count = *count + 1;
            let replace = match best_move {
                None => true,
                Some(b) => key_less_exec(&m, b),
            };
            if replace {
                *best_move = Some(m);
                *best = r;
            }
        }
        k = k + 1;
    }
}

/// The attacker's checking moves taken from `legal_moves`, sorted by category.
fn checks_from_legal(state: &mut State) -> (r: Vec<Move>)
    requires
        old(state).wf(),
        old(state).room(),
    ensures
        *final(state) == *old(state),
        r@ == by_category(*old(state), spec_legal_moves(*old(state)).filter(gives_check_in(*old(state)))),
{
    let ghost s0 = *state;
    let moves = legal_moves(state);
    proof {
        lemma_legal_lists_playable(s0);
    }
    let mut checks: Vec<Move> = Vec::new();
    let mut k: usize = 0;
    while k < moves.len()
        invariant
            k <= moves@.len(),
            *state == s0,
            moves@ == spec_legal_moves(s0),
            all_playable(s0, moves@),
            checks@ == moves@.take(k as int).filter(gives_check_in(s0)),
        decreases moves.len() - k,
    {
        proof {
            lemma_filter_take_step(moves@, gives_check_in(s0), k as int);
        }
        assert(playable(s0, moves@[k as int]));
        if move_gives_check(state, &moves[k]) {
            checks.push(moves[k]);
        }
        k = k + 1;
    }
    assert(moves@.take(moves@.len() as int) =~= moves@);
    assert forall|j: int| 0 <= j < checks@.len() implies #[trigger] move_to_pos(checks@[j]).spec_valid() by {
        broadcast use vstd::seq_lib::group_filter_ensures;
        let m = checks@[j];
        assert(checks@.contains(m));
        moves@.lemma_filter_contains_rev(gives_check_in(s0), m);
        let i = choose|i: int| 0 <= i < moves@.len() && moves@[i] == m;
        assert(playable(s0, moves@[i]));
    }
    let mut out: Vec<Move> = Vec::new();
    push_category(state, &checks, 0, &mut out);
    push_category(state, &checks, 1, &mut out);
    push_category(state, &checks, 2, &mut out);
    push_category(state, &checks, 3, &mut out);
    push_category(state, &checks, 4, &mut out);
    assert(out@ =~= by_category(s0, checks@));
    out
}

fn attacker_node(state: &mut State, plies: u32, memo: &mut FxHashMap<u64, MemoEntry>, v: bool) -> (r: MateResult)
    requires
        old(state).wf(),
        old(state).room(),
        old(state).side_to_move == Owner::Attacker,
        plies >= 1,
        memo_ok(old(memo)@, v),
    ensures
        *final(state) == *old(state),
        memo_ok(final(memo)@, v),
        r@ == mate_spec(*old(state), plies as nat, v),
    decreases plies, 2int,
{
    let ghost s0 = *state;
    let checks = if v {
        legal_check_moves(state)
    } else {
        checks_from_legal(state)
    };
    proof {
        lemma_attacker_moves_playable(s0, v);
    }
    let mut count: usize = 0;
    let mut best_move: Option<Move> = None;
    let mut best = no_mate_result();
    attack_fold(state, plies, &checks, &mut count, &mut best_move, &mut best, memo, v);
    match best_move {
        None => no_mate_result(),
        Some(b) => {
            let mut line = vec![b];
            line.append(&mut best.line);
            MateResult { mate: true, unique: count == 1 && best.unique, line }
        },
    }
}

fn defender_node(state: &mut State, plies: u32, memo: &mut FxHashMap<u64, MemoEntry>, v: bool) -> (r: MateResult)
    requires
        old(state).wf(),
        old(state).room(),
        old(state).side_to_move == Owner::Defender,
        memo_ok(old(memo)@, v),
    ensures
        *final(state) == *old(state),
        memo_ok(final(memo)@, v),
        r@ == mate_spec(*old(state), plies as nat, v),
    decreases plies, 2int,
{
    let ghost s0 = *state;
    proof {
        lemma_legal_lists_playable(s0);
    }
    let board_moves = legal_board_moves(state);
    if plies == 0 {
        if board_moves.len() == 0 {
            let drop_moves = legal_drop_moves(state);
            if drop_moves.len() == 0 {
                return MateResult { mate: is_in_check(state, Owner::Defender), unique: true, line: Vec::new() };
            }
        }
        return no_mate_result();
    }
    let kp = state.king_pos(Owner::Defender);
    let checkers = find_checkers(state, Owner::Defender);
    let sliding = if checkers.len() == 1 && is_sliding_piece(checkers[0].1.piece_type) {
        Some(checkers[0])
    } else {
        None
    };
    let mut tally = Tally { all_mate: true, all_unique: true, best_move: None, best_line: Vec::new() };
    defend_fold(state, plies, &board_moves, &mut tally, memo, v, sliding, kp);
    if !tally.all_mate {
        return no_mate_result();
    }
    let drop_moves = legal_drop_moves(state);
    if board_moves.len() == 0 && drop_moves.len() == 0 {
        return MateResult { mate: is_in_check(state, Owner::Defender), unique: true, line: Vec::new() };
    }
    defend_fold(state, plies, &drop_moves, &mut tally, memo, v, sliding, kp);
    if !tally.all_mate {
        return no_mate_result();
    }
    match tally.best_move {
        Some(b) => {
            let mut line = vec![b];
            line.append(&mut tally.best_line);
            MateResult { mate: true, unique: tally.all_unique, line }
        },
        None => MateResult { mate: true, unique: true, line: Vec::new() },
    }
}

/// The mate search shared by both move generators, with memo.
pub(crate) fn search(state: &mut State, plies: u32, memo: &mut FxHashMap<u64, MemoEntry>, v: bool) -> (r: MateResult)
    requires
        old(state).wf(),
        old(state).room(),
        memo_ok(old(memo)@, v),
    ensures
        *final(state) == *old(state),
        memo_ok(final(memo)@, v),
        r@ == mate_spec(*old(state), plies as nat, v),
    decreases plies, 3int,
{
    let key = state_key(state, plies);
    match memo_get(memo, key) {
        Some(e) => {
            if same_state(&e.state, state) && e.plies == plies {
                return e.result;
            }
        },
        None => {},
    }
    let result = if state.side_to_move == Owner::Defender {
        defender_node(state, plies, memo, v)
    } else if plies == 0 {
        no_mate_result()
    } else {
        attacker_node(state, plies, memo, v)
    };
    let stored = copy_result(&result);
    memo_insert(memo, key, MemoEntry { state: *state, plies, result: stored });
    result
}

/// Search for a mate within `plies` plies: the attacker gives check on every
/// move, the defender picks its best reply, futile interpositions aside.
/// Results are remembered in `memo` for the position and plies searched.
pub fn forced_mate_within(state: &mut State, plies: u32, memo: &mut FxHashMap<u64, MemoEntry>) -> (r: MateResult)
    requires
        old(state).wf(),
        old(state).room(),
        memo_ok(old(memo)@, false),
    ensures
        *final(state) == *old(state),
        memo_ok(final(memo)@, false),
        r@ == mate_spec(*old(state), plies as nat, false),
{
    search(state, plies, memo, false)
}

/// An empty memo holds no wrong result.
pub proof fn lemma_memo_empty(v: bool)
    ensures
        memo_ok(Map::empty(), v),
{
}

/// A copy of a move list.
pub fn copy_moves(v: &Vec<Move>) -> (r: Vec<Move>)
    ensures
        r@ == v@,
{
    copy_line(v)
}

/// The defender's replies `ms[i..]` in the full-width search, folded into
/// `acc`: every reply must be mated (the fold stops at the first that
/// escapes); whether all those mates are unique; the reply that resists
/// longest (its line is longest, the first such reply on ties) with its line.
pub open spec fn full_def_fold(
    s: State,
    p: nat,
    ms: Seq<Move>,
    i: nat,
    acc: (bool, bool, Option<Move>, Seq<Move>),
) -> (bool, bool, Option<Move>, Seq<Move>)
    decreases p, 1int, ms.len() - i,
{
    if p == 0 || i >= ms.len() || !acc.0 {
        acc
    } else {
        let m = ms[i as int];
        let r = full_mate_spec(spec_apply(s, m), (p - 1) as nat);
        if !r.0 {
            (false, acc.1, acc.2, acc.3)
        } else if acc.2 is None || r.2.len() > acc.3.len() {
            full_def_fold(s, p, ms, i + 1, (true, acc.1 && r.1, Some(m), r.2))
        } else {
            full_def_fold(s, p, ms, i + 1, (true, acc.1 && r.1, acc.2, acc.3))
        }
    }
}

/// The attacker's checking moves `ms[i..]` in the full-width search, folded
/// into `acc`: the number of mating moves, and the lowest-ranked one (the
/// first on ties) with its result.
pub open spec fn full_att_fold(
    s: State,
    p: nat,
    ms: Seq<Move>,
    i: nat,
    acc: (nat, Option<(Move, (bool, bool, Seq<Move>))>),
) -> (nat, Option<(Move, (bool, bool, Seq<Move>))>)
    decreases p, 1int, ms.len() - i,
{
    if p == 0 || i >= ms.len() {
        acc
    } else {
        let m = ms[i as int];
        let r = full_mate_spec(spec_apply(s, m), (p - 1) as nat);
        let next = if !r.0 {
            acc
        } else {
            (
                acc.0 + 1,
                match acc.1 {
                    None => Some((m, r)),
                    Some(b) => if key_less(m, b.0) {
                        Some((m, r))
                    } else {
                        acc.1
                    },
                },
            )
        };
        full_att_fold(s, p, ms, i + 1, next)
    }
}

/// The full-width search: whether the side to move in `s` is mated within
/// `p` plies, the attacker giving check on every move and every legal reply
/// of the defender searched (no reply is set aside as futile); whether the
/// mate is unique (one mating check at every attacker turn, every reply's
/// mate unique); and a main line that follows the lowest-ranked mating check
/// and the defender's longest resistance (the first such reply on ties).
pub open spec fn full_mate_spec(s: State, p: nat) -> (bool, bool, Seq<Move>)
    decreases p, 2int, 0int,
{
    if s.side_to_move == Owner::Defender {
        let ms = spec_legal_moves(s);
        if ms.len() == 0 {
            (spec_in_check(s, Owner::Defender), true, seq![])
        } else if p == 0 {
            no_mate()
        } else {
            let a = full_def_fold(s, p, ms, 0, start_tally());
            if !a.0 {
                no_mate()
            } else {
                match a.2 {
                    Some(b) => (true, a.1, seq![b] + a.3),
                    None => (true, true, seq![]),
                }
            }
        }
    } else if p == 0 {
        no_mate()
    } else {
        let acc = full_att_fold(s, p, attacker_moves(s, false), 0, (0, None));
        match acc.1 {
            None => no_mate(),
            Some(b) => (true, acc.0 == 1 && b.1.1, seq![b.0] + b.1.2),
        }
    }
}

/// Every remembered result is the full-width search result of its position
/// and plies.
pub closed spec fn memo_ok_full(m: Map<u64, MemoEntry>) -> bool {
    forall|k: u64| #[trigger] m.dom().contains(k) ==> m[k].result@ == full_mate_spec(m[k].state, m[k].plies as nat)
}

fn full_defend_fold(
    state: &mut State,
    plies: u32,
    ms: &Vec<Move>,
    tally: &mut Tally,
    memo: &mut FxHashMap<u64, MemoEntry>,
)
    requires
        old(state).wf(),
        old(state).room(),
        old(state).side_to_move == Owner::Defender,
        plies >= 1,
        memo_ok_full(old(memo)@),
        all_playable(*old(state), ms@),
    ensures
        *final(state) == *old(state),
        memo_ok_full(final(memo)@),
        tally_view(*final(tally)) == full_def_fold(*old(state), plies as nat, ms@, 0, tally_view(*old(tally))),
    decreases plies, 1int,
{
    let ghost s0 = *state;
    let ghost t0 = tally_view(*tally);
    let mut k: usize = 0;
    while k < ms.len() && tally.all_mate
        invariant
            k <= ms@.len(),
            *state == s0,
            s0 == *old(state),
            t0 == tally_view(*old(tally)),
            s0.wf(),
            s0.room(),
            s0.side_to_move == Owner::Defender,
            plies >= 1,
            memo_ok_full(memo@),
            all_playable(s0, ms@),
            full_def_fold(s0, plies as nat, ms@, 0, t0) == full_def_fold(s0, plies as nat, ms@, k as nat, tally_view(*tally)),
        decreases ms.len() - k, if tally.all_mate { 1int } else { 0int },
    {
        let m = ms[k];
        assert(playable(s0, ms@[k as int]));
        proof {
            lemma_apply_wf(s0, m);
            lemma_apply_room(s0, m);
            lemma_undo_after_apply(s0, m);
        }
        let undo = make_move(state, &m);
        let r = full_search(state, plies - 1, memo);
        undo_move(state, &m, &undo);
        if !r.mate {
            tally.all_mate = false;
        } else {
            if !r.unique {
                tally.all_unique = false;
            }
            if tally.best_move.is_none() || r.line.len() > tally.best_line.len() {
                tally.best_move = Some(m);
                tally.best_line = r.line;
            }
            k = k + 1;
        }
    }
}

fn full_attack_fold(
    state: &mut State,
    plies: u32,
    ms: &Vec<Move>,
    count: &mut usize,
    best_move: &mut Option<Move>,
    best: &mut MateResult,
    memo: &mut FxHashMap<u64, MemoEntry>,
)
    requires
        old(state).wf(),
        old(state).room(),
        plies >= 1,
        *old(count) == 0,
        memo_ok_full(old(memo)@),
        all_playable(*old(state), ms@),
    ensures
        *final(state) == *old(state),
        memo_ok_full(final(memo)@),
        att_view(*final(count), *final(best_move), *final(best)) == full_att_fold(
            *old(state),
            plies as nat,
            ms@,
            0,
            att_view(*old(count), *old(best_move), *old(best)),
        ),
    decreases plies, 1int,
{
    let ghost s0 = *state;
    let ghost a0 = att_view(*count, *best_move, *best);
    let mut k: usize = 0;
    while k < ms.len()
        invariant
            k <= ms@.len(),
            *count <= k,
            *state == s0,
            s0 == *old(state),
            a0 == att_view(*old(count), *old(best_move), *old(best)),
            s0.wf(),
            s0.room(),
            plies >= 1,
            memo_ok_full(memo@),
            all_playable(s0, ms@),
            full_att_fold(s0, plies as nat, ms@, 0, a0) == full_att_fold(
                s0,
                plies as nat,
                ms@,
                k as nat,
                att_view(*count, *best_move, *best),
            ),
        decreases ms.len() - k,
    {
        let m = ms[k];
        assert(playable(s0, ms@[k as int]));
        proof {
            lemma_apply_wf(s0, m);
            lemma_apply_room(s0, m);
            lemma_undo_after_apply(s0, m);
        }
        let undo = make_move(state, &m);
        let r = full_search(state, plies - 1, memo);
        undo_move(state, &m, &undo);
        if r.mate {
            *count = *count + 1;
            let replace = match best_move {
                None => true,
                Some(b) => key_less_exec(&m, b),
            };
            if replace {
                *best_move = Some(m);
                *best = r;
            }
        }
        k = k + 1;
    }
}

fn full_defender_node(state: &mut State, plies: u32, memo: &mut FxHashMap<u64, MemoEntry>) -> (r: MateResult)
    requires
        old(state).wf(),
        old(state).room(),
        old(state).side_to_move == Owner::Defender,
        memo_ok_full(old(memo)@),
    ensures
        *final(state) == *old(state),
        memo_ok_full(final(memo)@),
        r@ == full_mate_spec(*old(state), plies as nat),
    decreases plies, 2int,
{
    let ghost s0 = *state;
    proof {
        lemma_legal_lists_playable(s0);
    }
    let moves = legal_moves(state);
    if moves.len() == 0 {
        return MateResult { mate: is_in_check(state, Owner::Defender), unique: true, line: Vec::new() };
    }
    if plies == 0 {
        return no_mate_result();
    }
    let mut tally = Tally { all_mate: true, all_unique: true, best_move: None, best_line: Vec::new() };
    full_defend_fold(state, plies, &moves, &mut tally, memo);
    if !tally.all_mate {
        return no_mate_result();
    }
    match tally.best_move {
        Some(b) => {
            let mut line = vec![b];
            line.append(&mut tally.best_line);
            MateResult { mate: true, unique: tally.all_unique, line }
        },
        None => MateResult { mate: true, unique: true, line: Vec::new() },
    }
}

fn full_attacker_node(state: &mut State, plies: u32, memo: &mut FxHashMap<u64, MemoEntry>) -> (r: MateResult)
    requires
        old(state).wf(),
        old(state).room(),
        old(state).side_to_move == Owner::Attacker,
        plies >= 1,
        memo_ok_full(old(memo)@),
    ensures
        *final(state) == *old(state),
        memo_ok_full(final(memo)@),
        r@ == full_mate_spec(*old(state), plies as nat),
    decreases plies, 2int,
{
    let ghost s0 = *state;
    let checks = checks_from_legal(state);
    proof {
        lemma_attacker_moves_playable(s0, false);
    }
    let mut count: usize = 0;
    let mut best_move: Option<Move> = None;
    let mut best = no_mate_result();
    full_attack_fold(state, plies, &checks, &mut count, &mut best_move, &mut best, memo);
    match best_move {
        None => no_mate_result(),
        Some(b) => {
            let mut line = vec![b];
            line.append(&mut best.line);
            MateResult { mate: true, unique: count == 1 && best.unique, line }
        },
    }
}

fn full_search(state: &mut State, plies: u32, memo: &mut FxHashMap<u64, MemoEntry>) -> (r: MateResult)
    requires
        old(state).wf(),
        old(state).room(),
        memo_ok_full(old(memo)@),
    ensures
        *final(state) == *old(state),
        memo_ok_full(final(memo)@),
        r@ == full_mate_spec(*old(state), plies as nat),
    decreases plies, 3int,
{
    let key = state_key(state, plies);
    match memo_get(memo, key) {
        Some(e) => {
            if same_state(&e.state, state) && e.plies == plies {
                return e.result;
            }
        },
        None => {},
    }
    let result = if state.side_to_move == Owner::Defender {
        full_defender_node(state, plies, memo)
    } else if plies == 0 {
        no_mate_result()
    } else {
        full_attacker_node(state, plies, memo)
    };
    let stored = copy_result(&result);
    memo_insert(memo, key, MemoEntry { state: *state, plies, result: stored });
    result
}

/// An empty memo holds no wrong full-width result.
pub proof fn lemma_memo_full_empty()
    ensures
        memo_ok_full(Map::empty()),
{
}

/// The full-width mate search of problem generation: the attacker gives
/// check on every move, every legal reply of the defender is searched, and
/// the main line follows the lowest-ranked mating check and the defender's
/// longest resistance. Results are remembered in `memo` for the position and plies.
pub fn forced_mate_within_full(state: &mut State, plies: u32, memo: &mut FxHashMap<u64, MemoEntry>) -> (r: MateResult)
    requires
        old(state).wf(),
        old(state).room(),
        memo_ok_full(old(memo)@),
    ensures
        *final(state) == *old(state),
        memo_ok_full(final(memo)@),
        r@ == full_mate_spec(*old(state), plies as nat),
{
    full_search(state, plies, memo)
}

} // verus!

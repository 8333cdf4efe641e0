use vstd::prelude::*;
use crate::pieces::{
    BoardPiece, Hands, Move, Owner, PieceType, Pos, HAND_TYPES, spec_hand_types, lemma_hand_types,
    spec_is_sliding_piece, is_sliding_piece, lemma_hands_with_count, sq_index,
};
use crate::state::{
    State, spec_apply, law_ok, move_to_pos, make_move, undo_move, lemma_apply_wf, lemma_apply_room,
    lemma_undo_after_apply, lemma_pos_of_idx,
};
use crate::attacks::{
    spec_in_check, is_in_check, spec_checkers, find_checkers, interp_seq, interposition_squares,
    checker_ok, lemma_checkers_ok, aligned, signum, steps, line_len,
};
use crate::movegen::{
    mk_drop, drop_ok, drops_upto, spec_pseudo_drops, pseudo_drops, has_pawn_on_file, no_go,
    keeps_king_safe, keep_safe, legal_board_upto, spec_legal_board_moves, pseudo_at, all_shape,
    pseudo_moves_from, board_move_is_safe, board_move_shape, lemma_pseudo_shape, lemma_shape_law_ok,
    legal_board_moves,
};

verus! {

broadcast use vstd::array::group_array_axioms;

/// Filtering a prefix one element longer adds that element when it passes.
pub proof fn lemma_filter_take_step<A>(ms: Seq<A>, pred: spec_fn(A) -> bool, k: int)
    requires
        0 <= k < ms.len(),
    ensures
        ms.take(k + 1).filter(pred) == if pred(ms[k]) {
            ms.take(k).filter(pred).push(ms[k])
        } else {
            ms.take(k).filter(pred)
        },
{
    reveal(Seq::filter);
    assert(ms.take(k + 1).drop_last() =~= ms.take(k));
}

/// Pawns in both hands.
pub open spec fn hand_pawns(h: Hands) -> int {
    h.count(Owner::Attacker, PieceType::P) + h.count(Owner::Defender, PieceType::P)
}

/// A drop, by the side to move, of a piece it holds onto an empty square.
pub open spec fn drop_shape(s: State, m: Move) -> bool {
    &&& m.from is None
    &&& !m.promote
    &&& m.drop matches Some(t) && t.spec_is_hand_type() && s.hands.count(s.side_to_move, t) >= 1
    &&& move_to_pos(m).spec_valid()
    &&& s.at(move_to_pos(m).spec_idx()) is None
}

pub proof fn lemma_drop_law_ok(s: State, m: Move)
    requires
        s.wf(),
        drop_shape(s, m),
    ensures
        law_ok(s, m),
{
}

/// Dropping a pawn uses up one pawn in hand.
pub proof fn lemma_pawn_drop_pawns(s: State, m: Move)
    requires
        m.drop == Some(PieceType::P),
        s.hands.count(s.side_to_move, PieceType::P) >= 1,
    ensures
        hand_pawns(spec_apply(s, m).hands) == hand_pawns(s.hands) - 1,
{
    let owner = s.side_to_move;
    let c = s.hands.count(owner, PieceType::P);
    let h = s.hands.with_count(owner, PieceType::P, (c - 1) as u8);
    assert(spec_apply(s, m).hands == h);
    lemma_hands_with_count(s.hands, owner, PieceType::P, (c - 1) as u8, Owner::Attacker, PieceType::P);
    lemma_hands_with_count(s.hands, owner, PieceType::P, (c - 1) as u8, Owner::Defender, PieceType::P);
}

/// Drop candidate `k` onto the squares `sqs`: square `k / 7`, hand kind `k % 7`.
pub open spec fn interp_drop_at(s: State, owner: Owner, sqs: Seq<Pos>, k: int) -> Seq<Move> {
    let sq = sqs[k / 7];
    let t = spec_hand_types()[k % 7];
    if drop_ok(s, owner, t, sq.x as int, sq.y as int) {
        seq![mk_drop(t, sq.x as int, sq.y as int)]
    } else {
        seq![]
    }
}

pub open spec fn interp_drops_upto(s: State, owner: Owner, sqs: Seq<Pos>, n: nat) -> Seq<Move>
    decreases n,
{
    if n == 0 {
        seq![]
    } else {
        interp_drops_upto(s, owner, sqs, (n - 1) as nat) + interp_drop_at(s, owner, sqs, n - 1)
    }
}

/// The lawful drops of `owner` onto the squares `sqs`, square by square, each
/// square's hand kinds in hand order.
pub open spec fn interp_drops(s: State, owner: Owner, sqs: Seq<Pos>) -> Seq<Move> {
    interp_drops_upto(s, owner, sqs, 7 * sqs.len())
}

/// The drops worth trying for the side to move: none against a double check
/// or a contact check, only interpositions against a single sliding check,
/// and every lawful drop otherwise.
pub open spec fn drop_candidates(s: State) -> Seq<Move> {
    let owner = s.side_to_move;
    let cks = spec_checkers(s, owner);
    if spec_in_check(s, owner) && cks.len() >= 2 {
        seq![]
    } else if spec_in_check(s, owner) && cks.len() == 1 {
        if spec_is_sliding_piece(cks[0].1.piece_type) {
            interp_drops(s, owner, interp_seq(cks[0].0, s.king_cache(owner).unwrap()))
        } else {
            seq![]
        }
    } else {
        spec_pseudo_drops(s, owner)
    }
}

/// The side to move has a legal move (board moves first, then the drop
/// candidates, with the pawn-drop mate rule applied).
pub closed spec fn spec_has_legal(s: State) -> bool
    decreases hand_pawns(s.hands), 2int, 0nat,
{
    crate::movegen::spec_legal_board_moves(s).len() > 0 || any_drop_ok(
        s,
        drop_candidates(s).len(),
    )
}

/// One of the first `n` drop candidates is legal.
pub open spec fn any_drop_ok(s: State, n: nat) -> bool
    decreases hand_pawns(s.hands), 1int, n,
{
    if n == 0 || n > drop_candidates(s).len() {
        false
    } else {
        any_drop_ok(s, (n - 1) as nat) || drop_legal(s, drop_candidates(s)[n - 1])
    }
}

/// A drop candidate is legal: it keeps the own king safe and is not a pawn
/// drop that mates.
pub open spec fn drop_legal(s: State, m: Move) -> bool
    decreases hand_pawns(s.hands), 1int, 0nat,
{
    keeps_king_safe(s, m) && !pawn_drop_mates(s, m)
}

/// `m` drops a pawn that gives check to a king whose side then has no legal
/// move.
pub open spec fn pawn_drop_mates(s: State, m: Move) -> bool
    decreases hand_pawns(s.hands), 0int, 0nat,
{
    if m.drop == Some(PieceType::P) && s.hands.count(s.side_to_move, PieceType::P) >= 1 {
        proof {
            lemma_pawn_drop_pawns(s, m);
        }
        spec_in_check(spec_apply(s, m), s.side_to_move.spec_opposite()) && !spec_has_legal(
            spec_apply(s, m),
        )
    } else {
        false
    }
}

/// Every move of `ms` is a drop of a held piece onto an empty square.
pub open spec fn all_drops(s: State, ms: Seq<Move>) -> bool {
    forall|i: int| 0 <= i < ms.len() ==> #[trigger] drop_shape(s, ms[i])
}

proof fn lemma_all_drops_concat(s: State, a: Seq<Move>, b: Seq<Move>)
    requires
        all_drops(s, a),
        all_drops(s, b),
    ensures
        all_drops(s, a + b),
{
    assert forall|i: int| 0 <= i < (a + b).len() implies #[trigger] drop_shape(s, (a + b)[i]) by {
        if i < a.len() {
            assert((a + b)[i] == a[i]);
        } else {
            assert((a + b)[i] == b[i - a.len()]);
        }
    }
}

pub proof fn lemma_pseudo_drops_shape(s: State, n: nat)
    requires
        n <= 567,
    ensures
        all_drops(s, drops_upto(s, s.side_to_move, n)),
    decreases n,
{
    if n > 0 {
        lemma_pseudo_drops_shape(s, (n - 1) as nat);
        let k = n - 1;
        lemma_hand_types(k / 81);
        lemma_all_drops_concat(s, drops_upto(s, s.side_to_move, (n - 1) as nat), crate::movegen::drop_at(s, s.side_to_move, k));
    }
}

/// The squares strictly between two squares on a line are on the board.
pub proof fn lemma_interp_valid(c: Pos, k: Pos)
    requires
        c.spec_valid(),
        k.spec_valid(),
        aligned(c, k),
    ensures
        forall|j: int| 0 <= j < interp_seq(c, k).len() ==> #[trigger] interp_seq(c, k)[j].spec_valid(),
{
    assert forall|j: int| 0 <= j < interp_seq(c, k).len() implies #[trigger] interp_seq(c, k)[j].spec_valid() by {
        let n = line_len(c, k);
        assert(j + 1 < n);
    }
}

proof fn lemma_interp_drops_shape(s: State, sqs: Seq<Pos>, n: nat)
    requires
        n <= 7 * sqs.len(),
        forall|j: int| 0 <= j < sqs.len() ==> #[trigger] sqs[j].spec_valid(),
    ensures
        all_drops(s, interp_drops_upto(s, s.side_to_move, sqs, n)),
    decreases n,
{
    if n > 0 {
        lemma_interp_drops_shape(s, sqs, (n - 1) as nat);
        let k = n - 1;
        lemma_hand_types(k % 7);
        assert(0 <= k / 7 < sqs.len());
        assert(sqs[k / 7].spec_valid());
        lemma_all_drops_concat(s, interp_drops_upto(s, s.side_to_move, sqs, (n - 1) as nat), interp_drop_at(s, s.side_to_move, sqs, k));
    }
}

/// Every drop candidate drops a held piece onto an empty square.
pub proof fn lemma_candidates_shape(s: State)
    requires
        s.wf(),
    ensures
        all_drops(s, drop_candidates(s)),
{
    let owner = s.side_to_move;
    let cks = spec_checkers(s, owner);
    if spec_in_check(s, owner) && cks.len() == 1 && spec_is_sliding_piece(cks[0].1.piece_type) {
        let kp = s.king_cache(owner).unwrap();
        lemma_checkers_ok(s, owner);
        assert(checker_ok(s, kp, owner.spec_opposite(), cks[0]));
        lemma_interp_valid(cks[0].0, kp);
        lemma_interp_drops_shape(s, interp_seq(cks[0].0, kp), 7 * interp_seq(cks[0].0, kp).len());
    } else {
        lemma_pseudo_drops_shape(s, 567);
    }
}

/// The lawful drops of `owner` onto the squares `sqs`.
fn interposition_drops(state: &State, owner: Owner, sqs: &Vec<Pos>) -> (r: Vec<Move>)
    requires
        forall|j: int| 0 <= j < sqs@.len() ==> #[trigger] sqs@[j].spec_valid(),
    ensures
        r@ == interp_drops(*state, owner, sqs@),
{
    let mut out: Vec<Move> = Vec::new();
    let mut i: usize = 0;
    while i < sqs.len()
        invariant
            i <= sqs@.len(),
            forall|j: int| 0 <= j < sqs@.len() ==> #[trigger] sqs@[j].spec_valid(),
            out@ == interp_drops_upto(*state, owner, sqs@, (7 * i) as nat),
        decreases sqs.len() - i,
    {
        let target = sqs[i];
        assert(sqs@[i as int].spec_valid());
        let mut ti: usize = 0;
        while ti < 7
            invariant
                i < sqs@.len(),
                ti <= 7,
                target == sqs@[i as int],
                target.spec_valid(),
                out@ == interp_drops_upto(*state, owner, sqs@, (7 * i + ti) as nat),
            decreases 7 - ti,
        {
            let ghost k: int = 7 * i + ti;
            assert(k / 7 == i && k % 7 == ti) by (nonlinear_arith)
                requires
                    k == 7 * i + ti,
                    0 <= ti < 7,
            ;
            let t = HAND_TYPES[ti];
            proof {
                lemma_hand_types(ti as int);
            }
            let ghost before = out@;
            let ok = state.hands.get(owner, t) != 0 && state.get(target).is_none() && !no_go(
                owner,
                t,
                target.y,
            ) && !(t == PieceType::P && has_pawn_on_file(state, owner, target.x));
            if ok {
                out.push(Move { from: None, to: [target.x, target.y], drop: Some(t), promote: false });
            }
            assert(out@ =~= before + interp_drop_at(*state, owner, sqs@, k));
            ti = ti + 1;
        }
        i = i + 1;
    }
    out
}

/// The drops worth trying for the side to move.
fn drop_candidates_exec(state: &State) -> (r: Vec<Move>)
    requires
        state.wf(),
    ensures
        r@ == drop_candidates(*state),
{
    let owner = state.side_to_move;
    if is_in_check(state, owner) {
        let checkers = find_checkers(state, owner);
        if checkers.len() >= 2 {
            return Vec::new();
        }
        if checkers.len() == 1 {
            let (ck_pos, ck_bp) = checkers[0];
            if !is_sliding_piece(ck_bp.piece_type) {
                return Vec::new();
            }
            let kp = state.king_pos(owner).unwrap();
            proof {
                lemma_checkers_ok(*state, owner);
                assert(checker_ok(*state, kp, owner.spec_opposite(), checkers@[0]));
                lemma_interp_valid(ck_pos, kp);
            }
            let interp = interposition_squares(ck_pos, kp);
            return interposition_drops(state, owner, &interp);
        }
    }
    pseudo_drops(state, owner)
}

proof fn lemma_keep_safe_mono(s: State, ms: Seq<Move>, a: nat, b: nat)
    requires
        a <= b <= ms.len(),
    ensures
        keep_safe(s, ms, a).len() <= keep_safe(s, ms, b).len(),
    decreases b,
{
    if a < b {
        lemma_keep_safe_mono(s, ms, a, (b - 1) as nat);
    }
}

proof fn lemma_board_upto_mono(s: State, a: nat, b: nat)
    requires
        a <= b,
    ensures
        legal_board_upto(s, a).len() <= legal_board_upto(s, b).len(),
    decreases b,
{
    if a < b {
        lemma_board_upto_mono(s, a, (b - 1) as nat);
    }
}

proof fn lemma_any_drop_mono(s: State, a: nat, b: nat)
    requires
        a <= b <= drop_candidates(s).len(),
        any_drop_ok(s, a),
    ensures
        any_drop_ok(s, b),
    decreases b,
{
    if a < b {
        lemma_any_drop_mono(s, a, (b - 1) as nat);
    }
}

/// Whether the side to move has a board move that keeps its king safe.
fn has_legal_board_move(state: &mut State) -> (r: bool)
    requires
        old(state).wf(),
        old(state).room(),
    ensures
        *final(state) == *old(state),
        r == (spec_legal_board_moves(*old(state)).len() > 0),
{
    let ghost s0 = *state;
    let owner = state.side_to_move;
    let mut idx: usize = 0;
    while idx < 81
        invariant
            idx <= 81,
            *state == s0,
            s0 == *old(state),
            s0.wf(),
            s0.room(),
            owner == s0.side_to_move,
            legal_board_upto(s0, idx as nat).len() == 0,
        decreases 81 - idx,
    {
        let p = Pos::new((idx % 9 + 1) as i8, (idx / 9 + 1) as i8);
        proof {
            lemma_pos_of_idx(p);
            assert(p == crate::state::pos_of(idx as int));
        }
        if let Some(bp) = state.get(p) {
            if bp.owner == owner {
                let ms = pseudo_moves_from(state, p, bp);
                proof {
                    lemma_pseudo_shape(s0, p, bp);
                }
                let mut k: usize = 0;
                while k < ms.len()
                    invariant
                        k <= ms@.len(),
                        *state == s0,
                        s0 == *old(state),
                        s0.wf(),
                        s0.room(),
                        p.spec_valid(),
                        p == crate::state::pos_of(idx as int),
                        idx < 81,
                        s0.at(p.spec_idx()) == Some(bp),
                        bp.owner == s0.side_to_move,
                        ms@ == pseudo_at(s0, idx as int),
                        all_shape(s0, p, bp, ms@),
                        legal_board_upto(s0, idx as nat).len() == 0,
                        keep_safe(s0, ms@, k as nat).len() == 0,
                    decreases ms.len() - k,
                {
                    let m = ms[k];
                    assert(board_move_shape(s0, p, bp, ms@[k as int]));
                    if board_move_is_safe(state, p, &m) {
                        proof {
                            assert(keep_safe(s0, ms@, (k + 1) as nat).len() == 1);
                            lemma_keep_safe_mono(s0, ms@, (k + 1) as nat, ms@.len());
                            assert(legal_board_upto(s0, (idx + 1) as nat).len() > 0);
                            lemma_board_upto_mono(s0, (idx + 1) as nat, 81);
                        }
                        return true;
                    }
                    k = k + 1;
                }
                assert(legal_board_upto(s0, (idx + 1) as nat).len() == 0);
            }
        }
        idx = idx + 1;
    }
    false
}

/// Whether dropping a pawn with `m` gives check and leaves the opponent
/// without a legal move (such a drop is forbidden).
fn pawn_drop_mate_forbidden(state: &mut State, m: &Move) -> (r: bool)
    requires
        old(state).wf(),
        old(state).room(),
        drop_shape(*old(state), *m),
    ensures
        *final(state) == *old(state),
        r == pawn_drop_mates(*old(state), *m),
    decreases hand_pawns(old(state).hands), 0int,
{
    match m.drop {
        Some(PieceType::P) => {},
        _ => {
            return false;
        },
    }
    let ghost s0 = *state;
    let owner = state.side_to_move;
    let enemy = owner.opposite();
    proof {
        lemma_drop_law_ok(s0, *m);
        lemma_apply_wf(s0, *m);
        lemma_apply_room(s0, *m);
        lemma_undo_after_apply(s0, *m);
        lemma_pawn_drop_pawns(s0, *m);
    }
    let undo = make_move(state, m);
    let result = if !is_in_check(state, enemy) {
        false
    } else {
        !has_any_legal_move(state)
    };
    undo_move(state, m, &undo);
    result
}

/// Whether a drop candidate is legal: it keeps the own king safe and is not
/// a forbidden pawn-drop mate.
fn drop_is_legal(state: &mut State, m: &Move) -> (r: bool)
    requires
        old(state).wf(),
        old(state).room(),
        drop_shape(*old(state), *m),
    ensures
        *final(state) == *old(state),
        r == drop_legal(*old(state), *m),
    decreases hand_pawns(old(state).hands), 1int,
{
    let ghost s0 = *state;
    let owner = state.side_to_move;
    proof {
        lemma_drop_law_ok(s0, *m);
        lemma_apply_wf(s0, *m);
        lemma_undo_after_apply(s0, *m);
    }
    let undo = make_move(state, m);
    let still_check = is_in_check(state, owner);
    undo_move(state, m, &undo);
    if still_check {
        return false;
    }
    !pawn_drop_mate_forbidden(state, m)
}

/// Whether the side to move has at least one legal move; faster than
/// generating them all.
pub fn has_any_legal_move(state: &mut State) -> (r: bool)
    requires
        old(state).wf(),
        old(state).room(),
    ensures
        *final(state) == *old(state),
        r == spec_has_legal(*old(state)),
    decreases hand_pawns(old(state).hands), 2int,
{
    let ghost s0 = *state;
    if has_legal_board_move(state) {
        return true;
    }
    let cands = drop_candidates_exec(state);
    proof {
        lemma_candidates_shape(s0);
    }
    let mut k: usize = 0;
    while k < cands.len()
        invariant
            k <= cands@.len(),
            *state == s0,
            s0 == *old(state),
            s0.wf(),
            s0.room(),
            cands@ == drop_candidates(s0),
            all_drops(s0, cands@),
            !any_drop_ok(s0, k as nat),
            spec_legal_board_moves(s0).len() == 0,
        decreases cands.len() - k,
    {
        assert(drop_shape(s0, cands@[k as int]));
        if drop_is_legal(state, &cands[k]) {
            proof {
                lemma_any_drop_mono(s0, (k + 1) as nat, cands@.len());
            }
            return true;
        }
        k = k + 1;
    }
    false
}

/// `drop_legal` for the position `s`, as a predicate on moves.
pub open spec fn drop_legal_in(s: State) -> spec_fn(Move) -> bool {
    |m: Move| drop_legal(s, m)
}

/// The legal drops of the side to move: the drop candidates that keep the
/// king safe and are not pawn-drop mates, in candidate order.
pub open spec fn spec_legal_drops(s: State) -> Seq<Move> {
    drop_candidates(s).filter(drop_legal_in(s))
}

/// All legal moves of the side to move: board moves, then drops.
pub open spec fn spec_legal_moves(s: State) -> Seq<Move> {
    spec_legal_board_moves(s) + spec_legal_drops(s)
}

/// The legal drops of the side to move (with the shortcuts when in check).
pub fn legal_drop_moves(state: &mut State) -> (r: Vec<Move>)
    requires
        old(state).wf(),
        old(state).room(),
    ensures
        *final(state) == *old(state),
        r@ == spec_legal_drops(*old(state)),
{
    let ghost s0 = *state;
    let cands = drop_candidates_exec(state);
    proof {
        lemma_candidates_shape(s0);
    }
    let mut out: Vec<Move> = Vec::new();
    let mut k: usize = 0;
    while k < cands.len()
        invariant
            k <= cands@.len(),
            *state == s0,
            s0.wf(),
            s0.room(),
            cands@ == drop_candidates(s0),
            all_drops(s0, cands@),
            out@ == cands@.take(k as int).filter(drop_legal_in(s0)),
        decreases cands.len() - k,
    {
        let m = cands[k];
        assert(drop_shape(s0, cands@[k as int]));
        proof {
            lemma_filter_take_step(cands@, drop_legal_in(s0), k as int);
        }
        if drop_is_legal(state, &m) {
            out.push(m);
        }
        k = k + 1;
    }
    assert(cands@.take(cands@.len() as int) =~= cands@);
    out
}

/// Every legal move of the side to move: board moves, then drops. Moves that
/// leave the own king in check and pawn-drop mates are left out.
pub fn legal_moves(state: &mut State) -> (r: Vec<Move>)
    requires
        old(state).wf(),
        old(state).room(),
    ensures
        *final(state) == *old(state),
        r@ == spec_legal_moves(*old(state)),
{
    let mut out = legal_board_moves(state);
    let drops = legal_drop_moves(state);
    let ghost b = out@;
    let mut k: usize = 0;
    while k < drops.len()
        invariant
            k <= drops@.len(),
            out@ == b + drops@.take(k as int),
        decreases drops.len() - k,
    {
        out.push(drops[k]);
        assert(out@ =~= b + drops@.take(k + 1));
        k = k + 1;
    }
    assert(drops@.take(drops@.len() as int) =~= drops@);
    out
}

proof fn lemma_any_drop_iff(s: State, n: nat)
    requires
        n <= drop_candidates(s).len(),
    ensures
        any_drop_ok(s, n) <==> drop_candidates(s).take(n as int).filter(drop_legal_in(s)).len() > 0,
    decreases n,
{
    if n > 0 {
        lemma_any_drop_iff(s, (n - 1) as nat);
        lemma_filter_take_step(drop_candidates(s), drop_legal_in(s), n - 1);
    } else {
        reveal(Seq::filter);
    }
}

/// Law: the side to move has a legal move exactly when the list of its legal
/// moves is not empty.
pub proof fn lemma_has_legal_iff_moves(s: State)
    ensures
        spec_has_legal(s) <==> spec_legal_moves(s).len() > 0,
{
    let c = drop_candidates(s);
    lemma_any_drop_iff(s, c.len());
    assert(c.take(c.len() as int) =~= c);
}

proof fn lemma_keep_safe_legal(s: State, pos: Pos, piece: BoardPiece, ms: Seq<Move>, n: nat)
    requires
        s.wf(),
        s.room(),
        pos.spec_valid(),
        s.at(pos.spec_idx()) == Some(piece),
        piece.owner == s.side_to_move,
        all_shape(s, pos, piece, ms),
    ensures
        forall|j: int| 0 <= j < keep_safe(s, ms, n).len() ==> law_ok(s, #[trigger] keep_safe(s, ms, n)[j])
            && keeps_king_safe(s, keep_safe(s, ms, n)[j]) && keep_safe(s, ms, n)[j].drop is None,
    decreases n,
{
    if n > 0 && n <= ms.len() {
        lemma_keep_safe_legal(s, pos, piece, ms, (n - 1) as nat);
        let prev = keep_safe(s, ms, (n - 1) as nat);
        let ks = keep_safe(s, ms, n);
        assert(board_move_shape(s, pos, piece, ms[n - 1]));
        lemma_shape_law_ok(s, pos, ms[n - 1]);
        assert forall|j: int| 0 <= j < ks.len() implies law_ok(s, #[trigger] ks[j]) && keeps_king_safe(s, ks[j]) && ks[j].drop is None by {
            if j < prev.len() {
                assert(ks[j] == prev[j]);
            }
        }
    }
}

pub proof fn lemma_board_upto_legal(s: State, n: nat)
    requires
        s.wf(),
        s.room(),
        n <= 81,
    ensures
        forall|j: int| 0 <= j < legal_board_upto(s, n).len() ==> law_ok(s, #[trigger] legal_board_upto(s, n)[j])
            && keeps_king_safe(s, legal_board_upto(s, n)[j]) && legal_board_upto(s, n)[j].drop is None,
    decreases n,
{
    if n > 0 {
        lemma_board_upto_legal(s, (n - 1) as nat);
        let i = n - 1;
        let prev = legal_board_upto(s, (n - 1) as nat);
        let ms = pseudo_at(s, i);
        let ks = keep_safe(s, ms, ms.len());
        if crate::movegen::side_piece_at(s, i) {
            let p = crate::state::pos_of(i);
            assert(p.spec_valid() && p.spec_idx() == i);
            lemma_pseudo_shape(s, p, s.at(i).unwrap());
            lemma_keep_safe_legal(s, p, s.at(i).unwrap(), ms, ms.len());
        }
        assert forall|j: int| 0 <= j < legal_board_upto(s, n).len() implies law_ok(s, #[trigger] legal_board_upto(s, n)[j])
            && keeps_king_safe(s, legal_board_upto(s, n)[j]) && legal_board_upto(s, n)[j].drop is None by {
            if j < prev.len() {
                assert(legal_board_upto(s, n)[j] == prev[j]);
            } else {
                assert(legal_board_upto(s, n)[j] == ks[j - prev.len()]);
            }
        }
    }
}

/// Law: every legal move can be played and taken back, keeps the own king
/// out of check, and is no pawn-drop mate.
pub proof fn lemma_legal_moves_are_legal(s: State)
    requires
        s.wf(),
        s.room(),
    ensures
        forall|j: int| 0 <= j < spec_legal_moves(s).len() ==> law_ok(s, #[trigger] spec_legal_moves(s)[j])
            && keeps_king_safe(s, spec_legal_moves(s)[j]) && !pawn_drop_mates(s, spec_legal_moves(s)[j]),
{
    broadcast use vstd::seq_lib::group_filter_ensures;
    lemma_board_upto_legal(s, 81);
    lemma_candidates_shape(s);
    let b = spec_legal_board_moves(s);
    let d = spec_legal_drops(s);
    let c = drop_candidates(s);
    assert forall|j: int| 0 <= j < spec_legal_moves(s).len() implies law_ok(s, #[trigger] spec_legal_moves(s)[j])
        && keeps_king_safe(s, spec_legal_moves(s)[j]) && !pawn_drop_mates(s, spec_legal_moves(s)[j]) by {
        if j < b.len() {
            assert(spec_legal_moves(s)[j] == b[j]);
        } else {
            let m = d[j - b.len()];
            assert(spec_legal_moves(s)[j] == m);
            assert(drop_legal_in(s)(m));
            assert(d.contains(m));
            c.lemma_filter_contains_rev(drop_legal_in(s), m);
            let i = choose|i: int| 0 <= i < c.len() && c[i] == m;
            assert(drop_shape(s, c[i]));
            lemma_drop_law_ok(s, m);
        }
    }
}

/// `m` gives check to the opponent of the side to move.
pub open spec fn gives_check(s: State, m: Move) -> bool {
    spec_in_check(spec_apply(s, m), s.side_to_move.spec_opposite())
}

pub open spec fn gives_check_in(s: State) -> spec_fn(Move) -> bool {
    |m: Move| gives_check(s, m)
}

/// A drop that is legal and gives check.
pub open spec fn checking_drop_in(s: State) -> spec_fn(Move) -> bool {
    |m: Move| !pawn_drop_mates(s, m) && keeps_king_safe(s, m) && gives_check(s, m)
}

/// The search order of a move: capture with promotion, capture, promotion,
/// other board move, drop.
pub open spec fn move_category(s: State, m: Move) -> int {
    if m.from is Some {
        let cap = s.at(move_to_pos(m).spec_idx()) is Some;
        if cap && m.promote {
            0
        } else if cap {
            1
        } else if m.promote {
            2
        } else {
            3
        }
    } else {
        4
    }
}

pub open spec fn category_is(s: State, c: int) -> spec_fn(Move) -> bool {
    |m: Move| move_category(s, m) == c
}

/// `ms` stably sorted by `move_category`.
pub open spec fn by_category(s: State, ms: Seq<Move>) -> Seq<Move> {
    ms.filter(category_is(s, 0)) + ms.filter(category_is(s, 1)) + ms.filter(category_is(s, 2))
        + ms.filter(category_is(s, 3)) + ms.filter(category_is(s, 4))
}

/// The legal moves of the side to move that give check: checking board
/// moves, then checking drops (pawn-drop mates left out), stably sorted by
/// `move_category`.
pub open spec fn spec_legal_check_moves(s: State) -> Seq<Move> {
    by_category(
        s,
        spec_legal_board_moves(s).filter(gives_check_in(s)) + spec_pseudo_drops(s, s.side_to_move).filter(
            checking_drop_in(s),
        ),
    )
}

/// Whether a playable move gives check.
pub(crate) fn move_gives_check(state: &mut State, m: &Move) -> (r: bool)
    requires
        law_ok(*old(state), *m),
    ensures
        *final(state) == *old(state),
        r == gives_check(*old(state), *m),
{
    let ghost s0 = *state;
    proof {
        lemma_apply_wf(s0, *m);
        lemma_undo_after_apply(s0, *m);
    }
    let enemy = state.side_to_move.opposite();
    let undo = make_move(state, m);
    let r = is_in_check(state, enemy);
    undo_move(state, m, &undo);
    r
}

fn category_of(state: &State, m: &Move) -> (r: u8)
    requires
        move_to_pos(*m).spec_valid(),
    ensures
        r as int == move_category(*state, *m),
{
    if m.from.is_some() {
        let is_capture = state.get(Pos::new(m.to[0], m.to[1])).is_some();
        if is_capture && m.promote {
            0
        } else if is_capture {
            1
        } else if m.promote {
            2
        } else {
            3
        }
    } else {
        4
    }
}

/// Append the moves of `src` in category `c`, in order.
pub(crate) fn push_category(state: &State, src: &Vec<Move>, c: u8, out: &mut Vec<Move>)
    requires
        forall|j: int| 0 <= j < src@.len() ==> #[trigger] move_to_pos(src@[j]).spec_valid(),
    ensures
        final(out)@ == old(out)@ + src@.filter(category_is(*state, c as int)),
{
    let ghost base = out@;
    let mut k: usize = 0;
    while k < src.len()
        invariant
            k <= src@.len(),
            forall|j: int| 0 <= j < src@.len() ==> #[trigger] move_to_pos(src@[j]).spec_valid(),
            out@ == base + src@.take(k as int).filter(category_is(*state, c as int)),
        decreases src.len() - k,
    {
        proof {
            lemma_filter_take_step(src@, category_is(*state, c as int), k as int);
        }
        assert(move_to_pos(src@[k as int]).spec_valid());
        if category_of(state, &src[k]) == c {
            out.push(src[k]);
        }
        assert(out@ =~= base + src@.take(k + 1).filter(category_is(*state, c as int)));
        k = k + 1;
    }
    assert(src@.take(src@.len() as int) =~= src@);
}

/// The legal moves of the side to move that give check, captures with
/// promotion first, then captures, promotions, other board moves and drops.
pub fn legal_check_moves(state: &mut State) -> (r: Vec<Move>)
    requires
        old(state).wf(),
        old(state).room(),
    ensures
        *final(state) == *old(state),
        r@ == spec_legal_check_moves(*old(state)),
{
    broadcast use vstd::seq_lib::group_filter_ensures;
    let ghost s0 = *state;
    let owner = state.side_to_move;
    let board = legal_board_moves(state);
    proof {
        lemma_board_upto_legal(s0, 81);
    }
    let mut checks: Vec<Move> = Vec::new();
    let mut k: usize = 0;
    while k < board.len()
        invariant
            k <= board@.len(),
            *state == s0,
            s0.wf(),
            s0.room(),
            board@ == spec_legal_board_moves(s0),
            forall|j: int| 0 <= j < board@.len() ==> law_ok(s0, #[trigger] board@[j]),
            checks@ == board@.take(k as int).filter(gives_check_in(s0)),
        decreases board.len() - k,
    {
        proof {
            lemma_filter_take_step(board@, gives_check_in(s0), k as int);
        }
        assert(law_ok(s0, board@[k as int]));
        if move_gives_check(state, &board[k]) {
            checks.push(board[k]);
        }
        k = k + 1;
    }
    assert(board@.take(board@.len() as int) =~= board@);
    let ghost board_checks = checks@;
    let drops = pseudo_drops(state, owner);
    proof {
        lemma_pseudo_drops_shape(s0, 567);
    }
    let mut k: usize = 0;
    while k < drops.len()
        invariant
            k <= drops@.len(),
            *state == s0,
            s0.wf(),
            s0.room(),
            owner == s0.side_to_move,
            drops@ == spec_pseudo_drops(s0, owner),
            all_drops(s0, drops@),
            checks@ == board_checks + drops@.take(k as int).filter(checking_drop_in(s0)),
        decreases drops.len() - k,
    {
        proof {
            lemma_filter_take_step(drops@, checking_drop_in(s0), k as int);
        }
        let m = drops[k];
        assert(drop_shape(s0, drops@[k as int]));
        proof {
            lemma_drop_law_ok(s0, m);
        }
        if !pawn_drop_mate_forbidden(state, &m) {
            if drop_is_legal(state, &m) {
                if move_gives_check(state, &m) {
                    checks.push(m);
                }
            }
        }
        assert(checks@ =~= board_checks + drops@.take(k + 1).filter(checking_drop_in(s0)));
        k = k + 1;
    }
    assert(drops@.take(drops@.len() as int) =~= drops@);
    let ghost unsorted = checks@;
    assert forall|j: int| 0 <= j < checks@.len() implies #[trigger] move_to_pos(checks@[j]).spec_valid() by {
        let m = checks@[j];
        let bc = board@.filter(gives_check_in(s0));
        let dc = drops@.filter(checking_drop_in(s0));
        if j < bc.len() {
            assert(m == bc[j]);
            assert(bc.contains(m));
            board@.lemma_filter_contains_rev(gives_check_in(s0), m);
            let i = choose|i: int| 0 <= i < board@.len() && board@[i] == m;
            assert(law_ok(s0, board@[i]));
        } else {
            assert(m == dc[j - bc.len()]);
            assert(dc.contains(m));
            drops@.lemma_filter_contains_rev(checking_drop_in(s0), m);
            let i = choose|i: int| 0 <= i < drops@.len() && drops@[i] == m;
            assert(drop_shape(s0, drops@[i]));
        }
    }
    let mut out: Vec<Move> = Vec::new();
    push_category(state, &checks, 0, &mut out);
    push_category(state, &checks, 1, &mut out);
    push_category(state, &checks, 2, &mut out);
    push_category(state, &checks, 3, &mut out);
    push_category(state, &checks, 4, &mut out);
    assert(out@ =~= by_category(s0, unsorted));
    out
}

/// A piece on `(.., y)` that could never move again: a pawn or lance on its
/// last rank, a knight on its last two ranks.
pub open spec fn spec_has_dead_end_pieces(s: State) -> bool {
    exists|i: int| 0 <= i < 81 && #[trigger] dead_end_at(s, i)
}

pub open spec fn dead_end_at(s: State, i: int) -> bool {
    s.at(i) matches Some(bp) && crate::movegen::spec_no_go(bp.owner, bp.piece_type, i / 9 + 1)
}

/// Whether some piece on the board could never move again.
pub fn state_has_dead_end_pieces(state: &State) -> (r: bool)
    ensures
        r == spec_has_dead_end_pieces(*state),
{
    let mut idx: usize = 0;
    while idx < 81
        invariant
            idx <= 81,
            forall|i: int| 0 <= i < idx ==> !#[trigger] dead_end_at(*state, i),
        decreases 81 - idx,
    {
        let p = Pos::new((idx % 9 + 1) as i8, (idx / 9 + 1) as i8);
        proof {
            lemma_pos_of_idx(p);
            assert(p == crate::state::pos_of(idx as int));
        }
        if let Some(bp) = state.get(p) {
            if no_go(bp.owner, bp.piece_type, p.y) {
                assert(dead_end_at(*state, idx as int));
                return true;
            }
        }
        idx = idx + 1;
    }
    false
}

pub proof fn lemma_concat_contains<A>(a: Seq<A>, b: Seq<A>, x: A)
    requires
        (a + b).contains(x),
    ensures
        a.contains(x) || b.contains(x),
{
    let i = choose|i: int| 0 <= i < (a + b).len() && (a + b)[i] == x;
    if i < a.len() {
        assert(a[i] == x);
    } else {
        assert(b[i - a.len()] == x);
    }
}

/// Sorting by category keeps the moves it was given.
pub proof fn lemma_by_category_contains(s: State, ms: Seq<Move>, m: Move)
    requires
        by_category(s, ms).contains(m),
    ensures
        ms.contains(m),
{
    let f0 = ms.filter(category_is(s, 0));
    let f1 = ms.filter(category_is(s, 1));
    let f2 = ms.filter(category_is(s, 2));
    let f3 = ms.filter(category_is(s, 3));
    let f4 = ms.filter(category_is(s, 4));
    lemma_concat_contains(f0 + f1 + f2 + f3, f4, m);
    if (f0 + f1 + f2 + f3).contains(m) {
        lemma_concat_contains(f0 + f1 + f2, f3, m);
        if (f0 + f1 + f2).contains(m) {
            lemma_concat_contains(f0 + f1, f2, m);
            if (f0 + f1).contains(m) {
                lemma_concat_contains(f0, f1, m);
                if f0.contains(m) {
                    ms.lemma_filter_contains_rev(category_is(s, 0), m);
                } else {
                    ms.lemma_filter_contains_rev(category_is(s, 1), m);
                }
            } else {
                ms.lemma_filter_contains_rev(category_is(s, 2), m);
            }
        } else {
            ms.lemma_filter_contains_rev(category_is(s, 3), m);
        }
    } else {
        ms.lemma_filter_contains_rev(category_is(s, 4), m);
    }
}

/// Law: every checking move that `legal_check_moves` lists can be played and
/// taken back.
pub proof fn lemma_check_moves_law_ok(s: State)
    requires
        s.wf(),
        s.room(),
    ensures
        forall|j: int| 0 <= j < spec_legal_check_moves(s).len() ==> law_ok(s, #[trigger] spec_legal_check_moves(s)[j]),
{
    let board = spec_legal_board_moves(s);
    let drops = spec_pseudo_drops(s, s.side_to_move);
    let bc = board.filter(gives_check_in(s));
    let dc = drops.filter(checking_drop_in(s));
    lemma_board_upto_legal(s, 81);
    lemma_pseudo_drops_shape(s, 567);
    assert forall|j: int| 0 <= j < spec_legal_check_moves(s).len() implies law_ok(s, #[trigger] spec_legal_check_moves(s)[j]) by {
        let m = spec_legal_check_moves(s)[j];
        assert(spec_legal_check_moves(s).contains(m));
        lemma_by_category_contains(s, bc + dc, m);
        lemma_concat_contains(bc, dc, m);
        if bc.contains(m) {
            board.lemma_filter_contains_rev(gives_check_in(s), m);
            let i = choose|i: int| 0 <= i < board.len() && board[i] == m;
            assert(law_ok(s, board[i]));
        } else {
            drops.lemma_filter_contains_rev(checking_drop_in(s), m);
            let i = choose|i: int| 0 <= i < drops.len() && drops[i] == m;
            assert(drop_shape(s, drops[i]));
        }
    }
}

} // verus!

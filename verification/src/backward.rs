use vstd::prelude::*;
use crate::pieces::{
    BoardPiece, Owner, PieceType, Pos, spec_step_moves, spec_extra_steps, spec_slide_dirs, step_moves,
    extra_steps, slide_dirs, transform_dir, is_sliding_piece, promotion_zone, spec_promotion_zone,
};
use crate::state::{State, spec_set, board_count, hands_total, lemma_set_wf, lemma_wf_same};
use crate::attacks::{
    spec_in_check, is_in_check, is_square_attacked, find_checkers, spec_checkers, checker_ok,
    lemma_checkers_ok, interposition_squares, king_dirs_exec, abs8,
};
use crate::legal::{spec_has_legal, has_any_legal_move};
use crate::rng::{Rng, lemma_shuffle_elements};
use crate::initial::{
    InitialData, PieceData, piece_pos, board_pieces, used_count, max_count, hc_seq, kings_unique,
    defender_count, placed, lemma_board_pieces, lemma_pos_of_valid,
};

verus! {

broadcast use vstd::array::group_array_axioms;

/// Every offset of `ds` is at most two squares in each direction.
pub open spec fn small_dirs(ds: Seq<(i8, i8)>) -> bool {
    forall|j: int| 0 <= j < ds.len() ==> -2 <= #[trigger] ds[j].0 <= 2 && -2 <= ds[j].1 <= 2
}

pub proof fn lemma_dirs_small(t: PieceType)
    ensures
        small_dirs(spec_step_moves(t)),
        small_dirs(spec_extra_steps(t)),
        small_dirs(spec_slide_dirs(t)),
{
}

pub proof fn lemma_board_count_le(b: Seq<Option<BoardPiece>>)
    ensures
        board_count(b) <= b.len(),
    decreases b.len(),
{
    if b.len() > 0 {
        lemma_board_count_le(b.drop_last());
    }
}

/// A position with at most 81 pieces and nothing in hand has room.
pub proof fn lemma_room_small(s: State)
    requires
        hands_total(s.hands) + 81 <= 255,
    ensures
        s.room(),
{
    lemma_board_count_le(s.board@);
}

/// Whether an event of probability `per_million` / 1000000 happens: the next
/// number modulo one million falls below `per_million`.
pub(crate) fn chance(rng: &mut Rng, per_million: u64) -> (r: bool)
    ensures
        final(rng)@ == crate::zobrist::xorshift64(old(rng)@),
        r == (crate::zobrist::xorshift64(old(rng)@) % 1_000_000 < per_million),
{
    rng.next_u64() % 1_000_000 < per_million
}

/// The position with the defender to move.
pub open spec fn defender_to_move(s: State) -> State {
    State { side_to_move: Owner::Defender, ..s }
}

/// A mated position: the defender's king is in check and the defender, to
/// move, has no legal move; the attacker is to move.
pub open spec fn mated_position(s: State) -> bool {
    &&& s.wf()
    &&& s.room()
    &&& s.side_to_move == Owner::Attacker
    &&& spec_in_check(s, Owner::Defender)
    &&& !spec_has_legal(defender_to_move(s))
}

/// Whether a piece of kind `t` may stand on row `y` for the attacker (a pawn
/// or lance not on the last rank, a knight not on the last two).
fn attacker_can_stand(t: PieceType, y: i8) -> (r: bool)
    requires
        1 <= y <= 9,
    ensures
        r == !crate::movegen::spec_no_go(Owner::Attacker, t, y as int),
{
    match t {
        PieceType::P | PieceType::L => y > 1,
        PieceType::N => y > 2,
        _ => true,
    }
}

/// Place a piece of `owner` on `pos`.
fn place(state: &mut State, pos: Pos, owner: Owner, t: PieceType)
    requires
        old(state).wf(),
        pos.spec_valid(),
        t != PieceType::K,
    ensures
        *final(state) == spec_set(*old(state), pos, Some(BoardPiece { owner, piece_type: t })),
        final(state).wf(),
{
    proof {
        lemma_set_wf(*state, pos, Some(BoardPiece { owner, piece_type: t }));
    }
    state.set(pos, Some(BoardPiece { owner, piece_type: t }));
}

/// The defender's king.
pub open spec fn dk_piece() -> BoardPiece {
    BoardPiece { owner: Owner::Defender, piece_type: PieceType::K }
}

/// No piece on the board of `s` could never move again.
pub open spec fn no_dead_end(s: State) -> bool {
    forall|i: int| 0 <= i < 81 ==> !#[trigger] crate::legal::dead_end_at(s, i)
}

/// Placing on `pos` a piece that may stand there keeps every piece movable
/// and leaves the defender's king on `kp` when `pos` is another square.
proof fn lemma_place_keeps(s: State, pos: Pos, bp: BoardPiece, kp: Pos)
    requires
        pos.spec_valid(),
        kp.spec_valid(),
        no_dead_end(s),
        !crate::movegen::spec_no_go(bp.owner, bp.piece_type, pos.y as int),
        s.at(kp.spec_idx()) == Some(dk_piece()),
        pos != kp,
        bp.piece_type != PieceType::K,
    ensures
        no_dead_end(spec_set(s, pos, Some(bp))),
        spec_set(s, pos, Some(bp)).at(kp.spec_idx()) == Some(dk_piece()),
{
    let t = spec_set(s, pos, Some(bp));
    assert(t.board@ == s.board@.update(pos.spec_idx(), Some(bp)));
    crate::state::lemma_pos_of_idx(pos);
    crate::state::lemma_pos_of_idx(kp);
    if pos.spec_idx() == kp.spec_idx() {
        crate::state::lemma_idx_injective(pos, kp);
    }
    assert forall|i: int| 0 <= i < 81 implies !#[trigger] crate::legal::dead_end_at(t, i) by {
        if i == pos.spec_idx() {
            assert(t.at(i) == Some(bp));
            let y = pos.y as int;
            let x = pos.x as int;
            assert(i / 9 + 1 == y) by (nonlinear_arith)
                requires
                    i == (y - 1) * 9 + (x - 1),
                    1 <= x <= 9,
                    1 <= y <= 9,
            ;
            assert(!crate::movegen::spec_no_go(bp.owner, bp.piece_type, i / 9 + 1));
        } else {
            assert(t.at(i) == s.at(i));
            assert(!crate::legal::dead_end_at(s, i));
        }
    }
}

/// The index a draw from generator state `x` picks in a list of `len`
/// elements (see `Rng::pick`).
pub open spec fn pick_at(x: u64, len: nat) -> int {
    ((crate::zobrist::xorshift64(x) as usize) as nat % len) as int
}

/// A draw of probability `per_million` / 1000000 from generator state `x`.
pub open spec fn drawn(x: u64, per_million: u64) -> bool {
    crate::zobrist::xorshift64(x) % 1_000_000 < per_million
}

pub open spec fn gm_files() -> Seq<i8> {
    seq![1i8, 1i8, 2i8, 2i8, 8i8, 8i8, 9i8, 9i8, 3i8, 7i8]
}

pub open spec fn gm_blocks() -> Seq<PieceType> {
    seq![PieceType::G, PieceType::S, PieceType::P, PieceType::G, PieceType::S]
}

pub open spec fn gm_defender_blocks() -> Seq<PieceType> {
    seq![PieceType::P, PieceType::S]
}

pub open spec fn gm_checks_near() -> Seq<PieceType> {
    seq![PieceType::G, PieceType::S, PieceType::R, PieceType::B, PieceType::PR, PieceType::PB, PieceType::P]
}

pub open spec fn gm_checks_far() -> Seq<PieceType> {
    seq![PieceType::R, PieceType::B, PieceType::L, PieceType::N, PieceType::G, PieceType::S]
}

/// The squares next to `(kx, ky)` on the board, in the order of the king's
/// directions from direction `i` on, appended to `acc`.
pub open spec fn gm_neighbors(kx: int, ky: int, i: nat, acc: Seq<Pos>) -> Seq<Pos>
    decreases 8 - i,
{
    if i >= 8 {
        acc
    } else {
        let d = crate::attacks::king_dirs()[i as int];
        let p = Pos { x: (kx + d.0) as i8, y: (ky + d.1) as i8 };
        gm_neighbors(kx, ky, i + 1, if p.spec_valid() { acc.push(p) } else { acc })
    }
}

/// The board under construction, the squares in use, the flight squares left
/// open and the generator state.
pub type GmBuild = (State, Seq<bool>, Seq<Pos>, u64);

/// One square next to the king: with a draw of one half an attacker piece
/// (drawn from `gm_blocks`) is put there when it may stand there; otherwise,
/// with a draw of three tenths, a defender pawn or silver; otherwise the
/// square stays open for the king.
pub open spec fn gm_block_one(g: GmBuild, sq: Pos) -> GmBuild {
    let (st, used, esc, x) = g;
    let x1 = crate::zobrist::xorshift64(x);
    let bt = gm_blocks()[pick_at(x1, 5)];
    let x2 = if drawn(x, 500000) { crate::zobrist::xorshift64(x1) } else { x1 };
    if drawn(x, 500000) && !crate::movegen::spec_no_go(Owner::Attacker, bt, sq.y as int) {
        (spec_set(st, sq, Some(BoardPiece { owner: Owner::Attacker, piece_type: bt })), used.update(sq.spec_idx(), true), esc, x2)
    } else {
        let x3 = crate::zobrist::xorshift64(x2);
        let dt = gm_defender_blocks()[pick_at(x3, 2)];
        let x4 = if drawn(x2, 300000) { crate::zobrist::xorshift64(x3) } else { x3 };
        if drawn(x2, 300000) && (dt != PieceType::P || sq.y < 9) {
            (spec_set(st, sq, Some(BoardPiece { owner: Owner::Defender, piece_type: dt })), used.update(sq.spec_idx(), true), esc, x4)
        } else {
            (st, used, esc.push(sq), x4)
        }
    }
}

pub open spec fn gm_blocks_from(g: GmBuild, nbs: Seq<Pos>, k: nat) -> GmBuild
    decreases nbs.len() - k,
{
    if k >= nbs.len() {
        g
    } else {
        gm_blocks_from(gm_block_one(g, nbs[k as int]), nbs, k + 1)
    }
}

/// Squares `(kx - d.0, ky - d.1)` for the steps `ds[j..]` that are on the
/// board and not in use, appended to `acc`.
pub open spec fn gm_steps(ds: Seq<(i8, i8)>, kx: int, ky: int, used: Seq<bool>, j: nat, acc: Seq<Pos>) -> Seq<Pos>
    decreases ds.len() - j,
{
    if j >= ds.len() {
        acc
    } else {
        let p = Pos { x: (kx - ds[j as int].0) as i8, y: (ky - ds[j as int].1) as i8 };
        gm_steps(ds, kx, ky, used, j + 1, if p.spec_valid() && !used[p.spec_idx()] { acc.push(p) } else { acc })
    }
}

/// Up to three squares from `(x, y)` on in steps of `(-dx, -dy)`, while on
/// the board and not in use, appended to `acc`.
pub open spec fn gm_ray(dx: int, dy: int, x: int, y: int, used: Seq<bool>, dist: nat, acc: Seq<Pos>) -> Seq<Pos>
    decreases 3 - dist,
{
    let p = Pos { x: x as i8, y: y as i8 };
    if dist >= 3 || !(-128 <= x <= 127 && -128 <= y <= 127) || !p.spec_valid() || used[p.spec_idx()] {
        acc
    } else {
        gm_ray(dx, dy, x - dx, y - dy, used, dist + 1, acc.push(p))
    }
}

pub open spec fn gm_slides(ds: Seq<(i8, i8)>, kx: int, ky: int, used: Seq<bool>, j: nat, acc: Seq<Pos>) -> Seq<Pos>
    decreases ds.len() - j,
{
    if j >= ds.len() {
        acc
    } else {
        let d = ds[j as int];
        gm_slides(ds, kx, ky, used, j + 1, gm_ray(d.0 as int, d.1 as int, kx - d.0, ky - d.1, used, 0, acc))
    }
}

/// The squares a knight can check from, below the king, not in use.
pub open spec fn gm_knight(kx: int, ky: int, used: Seq<bool>, j: nat, acc: Seq<Pos>) -> Seq<Pos>
    decreases 2 - j,
{
    if j >= 2 {
        acc
    } else {
        let d = seq![(1i8, 2i8), (-1i8, 2i8)][j as int];
        let p = Pos { x: (kx + d.0) as i8, y: (ky + d.1) as i8 };
        gm_knight(kx, ky, used, j + 1, if p.spec_valid() && !used[p.spec_idx()] && p.y > 2 { acc.push(p) } else { acc })
    }
}

/// The squares a checking piece of kind `t` may stand on to check the king on
/// `(kx, ky)`: its steps, its extra steps, up to three squares along each
/// slide, and for a knight its two jumps, on the board and not in use.
pub open spec fn gm_candidates(t: PieceType, kx: int, ky: int, used: Seq<bool>) -> Seq<Pos> {
    let a = gm_steps(spec_step_moves(t), kx, ky, used, 0, seq![]);
    let b = gm_steps(spec_extra_steps(t), kx, ky, used, 0, a);
    let c = gm_slides(spec_slide_dirs(t), kx, ky, used, 0, b);
    if t == PieceType::N { gm_knight(kx, ky, used, 0, c) } else { c }
}

/// The defender's king moved from `dk` to `sq`.
pub open spec fn king_moved(st: State, dk: Pos, sq: Pos) -> State {
    spec_set(spec_set(st, dk, None), sq, Some(dk_piece()))
}

/// One open flight square: when not in use and not attacked by the attacker
/// (with the king moved there), an attacker piece drawn from `gm_blocks` is
/// put there when it may stand there.
pub open spec fn gm_cover_one(g: (State, Seq<bool>, u64), sq: Pos, dk: Pos) -> (State, Seq<bool>, u64) {
    let (st, used, x) = g;
    if used[sq.spec_idx()] || crate::attacks::spec_attacked(king_moved(st, dk, sq), sq, Owner::Attacker) {
        g
    } else {
        let bt = gm_blocks()[pick_at(x, 5)];
        let x1 = crate::zobrist::xorshift64(x);
        if !crate::movegen::spec_no_go(Owner::Attacker, bt, sq.y as int) {
            (spec_set(st, sq, Some(BoardPiece { owner: Owner::Attacker, piece_type: bt })), used.update(sq.spec_idx(), true), x1)
        } else {
            (st, used, x1)
        }
    }
}

pub open spec fn gm_cover_from(g: (State, Seq<bool>, u64), esc: Seq<Pos>, e: nat, dk: Pos) -> (State, Seq<bool>, u64)
    decreases esc.len() - e,
{
    if e >= esc.len() {
        g
    } else {
        gm_cover_from(gm_cover_one(g, esc[e as int], dk), esc, e + 1, dk)
    }
}

/// The empty position with the attacker to move.
pub open spec fn is_empty_state(s: State) -> bool {
    &&& forall|i: int| 0 <= i < 81 ==> s.at(i) is None
    &&& forall|i: int| 0 <= i < 7 ==> s.hands.attacker@[i] == 0 && s.hands.defender@[i] == 0
    &&& s.side_to_move == Owner::Attacker
    &&& s.king_cache(Owner::Attacker) is None
    &&& s.king_cache(Owner::Defender) is None
    &&& s.zobrist_hash == crate::zobrist::side_key()
}

pub open spec fn empty_state() -> State {
    choose|s: State| is_empty_state(s)
}

/// What `generate_mated_position` builds from generator state `x0`: the result
/// and the generator state afterwards.
#[verifier::opaque]
pub open spec fn gm_spec(x0: u64) -> (Option<State>, u64) {
    let x1 = crate::zobrist::xorshift64(x0);
    let dkx = gm_files()[pick_at(x0, 10)];
    let dky = (crate::zobrist::xorshift64(x1) % 2 + 1) as i8;
    let x2 = crate::zobrist::xorshift64(x1);
    let dk = Pos { x: dkx, y: dky };
    let s0 = spec_set(empty_state(), dk, Some(dk_piece()));
    let used0 = Seq::new(81, |i: int| i == dk.spec_idx());
    let nbs = gm_neighbors(dkx as int, dky as int, 0, seq![]);
    let g = gm_blocks_from((s0, used0, seq![], x2), nbs, 0);
    let (st, used, esc, x3) = g;
    let x4 = crate::zobrist::xorshift64(x3);
    let types = if drawn(x3, 700000) { gm_checks_near() } else { gm_checks_far() };
    let t = types[pick_at(x4, types.len())];
    let x5 = crate::zobrist::xorshift64(x4);
    let cands = gm_candidates(t, dkx as int, dky as int, used);
    if cands.len() == 0 {
        (None, x5)
    } else {
        let (sh, x6) = crate::rng::shuffle_spec(cands, x5);
        let cp = sh[0];
        if crate::movegen::spec_no_go(Owner::Attacker, t, cp.y as int) {
            (None, x6)
        } else {
            let st2 = spec_set(st, cp, Some(BoardPiece { owner: Owner::Attacker, piece_type: t }));
            let (st3, _u, x7) = gm_cover_from((st2, used.update(cp.spec_idx(), true), x6), esc, 0, dk);
            if !spec_in_check(st3, Owner::Defender) || spec_has_legal(defender_to_move(st3)) {
                (None, x7)
            } else {
                (Some(st3), x7)
            }
        }
    }
}

/// Build a mated position at random: the defender's king near the edge, some
/// of its flight squares blocked, a checking piece, and the remaining flight
/// squares covered; refused unless it really is mate.
pub fn generate_mated_position(rng: &mut Rng) -> (r: Option<State>)
    ensures
        r matches Some(s) ==> mated_position(s) && hands_total(s.hands) == 0 && no_dead_end(s)
            && (s.king_cache(Owner::Defender) matches Some(k) && 1 <= k.y <= 2),
        (r, final(rng)@) == gm_spec(old(rng)@),
{
    proof {
        reveal(gm_spec);
    }
    let ghost x0 = rng@;
    let xs: [i8; 10] = [1, 1, 2, 2, 8, 8, 9, 9, 3, 7];
    assert(xs@ =~= gm_files());
    let dk_x = *rng.pick(&xs);
    let dk_y = rng.ri(1, 2);
    assert(1 <= dk_x <= 9);
    let mut state = State::new();
    let dk_pos = Pos::new(dk_x, dk_y);
    let ghost s_empty = state;
    proof {
        assert(is_empty_state(s_empty));
        let e = empty_state();
        assert(is_empty_state(e));
        assert(s_empty.board@.len() == 81 && e.board@.len() == 81);
        assert forall|i: int| 0 <= i < 81 implies s_empty.board@[i] == e.board@[i] by {
            assert(s_empty.at(i) is None && e.at(i) is None);
        }
        assert(s_empty.board@ =~= e.board@);
        assert(s_empty.hands.attacker@ =~= e.hands.attacker@);
        assert(s_empty.hands.defender@ =~= e.hands.defender@);
        crate::state::lemma_state_ext(s_empty, e);
    }
    proof {
        lemma_set_wf(state, dk_pos, Some(BoardPiece { owner: Owner::Defender, piece_type: PieceType::K }));
    }
    state.set(dk_pos, Some(BoardPiece { owner: Owner::Defender, piece_type: PieceType::K }));
    proof {
        crate::state::lemma_pos_of_idx(dk_pos);
        assert(state.board@ == s_empty.board@.update(dk_pos.spec_idx(), Some(dk_piece())));
        assert(state.at(dk_pos.spec_idx()) == Some(dk_piece()));
        assert forall|i: int| 0 <= i < 81 implies !#[trigger] crate::legal::dead_end_at(state, i) by {
            if i != dk_pos.spec_idx() {
                assert(state.at(i) == s_empty.at(i));
            }
        }
    }
    let kd = king_dirs_exec();
    let mut king_neighbors: Vec<Pos> = Vec::new();
    let mut i: usize = 0;
    while i < 8
        invariant
            i <= 8,
            kd@ == crate::attacks::king_dirs(),
            1 <= dk_x <= 9,
            1 <= dk_y <= 2,
            dk_pos == (Pos { x: dk_x, y: dk_y }),
            forall|j: int| 0 <= j < king_neighbors@.len() ==> #[trigger] king_neighbors@[j].spec_valid(),
            forall|j: int| 0 <= j < king_neighbors@.len() ==> #[trigger] king_neighbors@[j] != dk_pos,
            gm_neighbors(dk_x as int, dk_y as int, 0, seq![]) == gm_neighbors(dk_x as int, dk_y as int, i as nat, king_neighbors@),
        decreases 8 - i,
    {
        assert(kd@[i as int] != (0i8, 0i8));
        let (dx, dy) = kd[i];
        let p = Pos::new(dk_x + dx, dk_y + dy);
        if p.is_valid() {
            king_neighbors.push(p);
        }
        i = i + 1;
    }
    let mut used: [bool; 81] = [false; 81];
    used[dk_pos.idx()] = true;
    let block_types: [PieceType; 5] = [PieceType::G, PieceType::S, PieceType::P, PieceType::G, PieceType::S];
    let defender_blocks: [PieceType; 2] = [PieceType::P, PieceType::S];
    let mut escape_squares: Vec<Pos> = Vec::new();
    let ghost nbs = king_neighbors@;
    let ghost g0: GmBuild = (state, used@, escape_squares@, rng@);
    proof {
        assert(block_types@ =~= gm_blocks());
        assert(defender_blocks@ =~= gm_defender_blocks());
        assert(used@ =~= Seq::new(81, |q: int| q == dk_pos.spec_idx()));
        assert(nbs == gm_neighbors(dk_x as int, dk_y as int, 0, seq![]));
    }
    let mut k: usize = 0;
    while k < king_neighbors.len()
        invariant
            k <= king_neighbors@.len(),
            forall|j: int| 0 <= j < king_neighbors@.len() ==> #[trigger] king_neighbors@[j].spec_valid(),
            forall|j: int| 0 <= j < king_neighbors@.len() ==> #[trigger] king_neighbors@[j] != dk_pos,
            forall|j: int| 0 <= j < escape_squares@.len() ==> #[trigger] escape_squares@[j].spec_valid(),
            dk_pos.spec_valid(),
            state.at(dk_pos.spec_idx()) == Some(dk_piece()),
            no_dead_end(state),
            used@[dk_pos.spec_idx()],
            defender_blocks@[0] == PieceType::P && defender_blocks@[1] == PieceType::S,
            state.wf(),
            state.side_to_move == Owner::Attacker,
            hands_total(state.hands) == 0,
            forall|j: int| 0 <= j < 5 ==> block_types@[j] != PieceType::K,
            forall|j: int| 0 <= j < 2 ==> defender_blocks@[j] != PieceType::K,
            block_types@ == gm_blocks(),
            defender_blocks@ == gm_defender_blocks(),
            king_neighbors@ == nbs,
            gm_blocks_from(g0, nbs, 0) == gm_blocks_from((state, used@, escape_squares@, rng@), nbs, k as nat),
        decreases king_neighbors.len() - k,
    {
        let sq = king_neighbors[k];
        assert(king_neighbors@[k as int].spec_valid());
        let ghost cur: GmBuild = (state, used@, escape_squares@, rng@);
        let mut done = false;
        if chance(rng, 500000) {
            let bt = *rng.pick(&block_types);
            if attacker_can_stand(bt, sq.y) {
                proof {
                    lemma_place_keeps(state, sq, BoardPiece { owner: Owner::Attacker, piece_type: bt }, dk_pos);
                }
                place(&mut state, sq, Owner::Attacker, bt);
                used[sq.idx()] = true;
                done = true;
            }
        }
        if !done && chance(rng, 300000) {
            let dt = *rng.pick(&defender_blocks);
            let ok = match dt {
                PieceType::P => sq.y < 9,
                _ => true,
            };
            if ok {
                proof {
                    assert(defender_blocks@.len() == 2);
                    assert(dt == PieceType::P || dt == PieceType::S);
                    lemma_place_keeps(state, sq, BoardPiece { owner: Owner::Defender, piece_type: dt }, dk_pos);
                }
                place(&mut state, sq, Owner::Defender, dt);
                used[sq.idx()] = true;
                done = true;
            }
        }
        if !done {
            escape_squares.push(sq);
        }
        assert((state, used@, escape_squares@, rng@) == gm_block_one(cur, sq));
        k = k + 1;
    }
    let ghost after_blocks: GmBuild = (state, used@, escape_squares@, rng@);
    assert(after_blocks == gm_blocks_from(g0, nbs, 0));
    let ghost x3 = rng@;
    let check_types: Vec<PieceType> = if chance(rng, 700000) {
        vec![PieceType::G, PieceType::S, PieceType::R, PieceType::B, PieceType::PR, PieceType::PB, PieceType::P]
    } else {
        vec![PieceType::R, PieceType::B, PieceType::L, PieceType::N, PieceType::G, PieceType::S]
    };
    assert(forall|j: int| 0 <= j < check_types@.len() ==> check_types@[j] != PieceType::K);
    proof {
        if drawn(x3, 700000) {
            assert(check_types@ =~= gm_checks_near());
        } else {
            assert(check_types@ =~= gm_checks_far());
        }
    }
    let ghost x4 = rng@;
    let check_type = *rng.pick(check_types.as_slice());
    let ghost x5 = rng@;
    let ghost ku = used@;
    let mut check_candidates: Vec<Pos> = Vec::new();
    proof {
        lemma_dirs_small(check_type);
    }
    let steps = step_moves(check_type);
    let mut j: usize = 0;
    while j < steps.len()
        invariant
            j <= steps@.len(),
            small_dirs(steps@),
            1 <= dk_x <= 9,
            1 <= dk_y <= 2,
            forall|q: int| 0 <= q < check_candidates@.len() ==> #[trigger] check_candidates@[q].spec_valid(),
            forall|q: int| 0 <= q < check_candidates@.len() ==> !used@[#[trigger] check_candidates@[q].spec_idx()],
            used@ == ku,
            steps@ == spec_step_moves(check_type),
            gm_steps(steps@, dk_x as int, dk_y as int, ku, 0, seq![]) == gm_steps(steps@, dk_x as int, dk_y as int, ku, j as nat, check_candidates@),
        decreases steps.len() - j,
    {
        let (dx, dy) = steps[j];
        assert(-2 <= steps@[j as int].0 <= 2 && -2 <= steps@[j as int].1 <= 2);
        let (tx, ty) = transform_dir(Owner::Attacker, dx, dy);
        let pos = Pos::new(dk_x - tx, dk_y - ty);
        if pos.is_valid() && !used[pos.idx()] {
            check_candidates.push(pos);
        }
        j = j + 1;
    }
    let ghost ca = check_candidates@;
    assert(ca == gm_steps(spec_step_moves(check_type), dk_x as int, dk_y as int, ku, 0, seq![]));
    let extra = extra_steps(check_type);
    let mut j: usize = 0;
    while j < extra.len()
        invariant
            j <= extra@.len(),
            small_dirs(extra@),
            1 <= dk_x <= 9,
            1 <= dk_y <= 2,
            forall|q: int| 0 <= q < check_candidates@.len() ==> #[trigger] check_candidates@[q].spec_valid(),
            forall|q: int| 0 <= q < check_candidates@.len() ==> !used@[#[trigger] check_candidates@[q].spec_idx()],
            used@ == ku,
            extra@ == spec_extra_steps(check_type),
            gm_steps(extra@, dk_x as int, dk_y as int, ku, 0, ca) == gm_steps(extra@, dk_x as int, dk_y as int, ku, j as nat, check_candidates@),
        decreases extra.len() - j,
    {
        let (dx, dy) = extra[j];
        assert(-2 <= extra@[j as int].0 <= 2 && -2 <= extra@[j as int].1 <= 2);
        let (tx, ty) = transform_dir(Owner::Attacker, dx, dy);
        let pos = Pos::new(dk_x - tx, dk_y - ty);
        if pos.is_valid() && !used[pos.idx()] {
            check_candidates.push(pos);
        }
        j = j + 1;
    }
    let ghost cb = check_candidates@;
    assert(cb == gm_steps(spec_extra_steps(check_type), dk_x as int, dk_y as int, ku, 0, ca));
    let slides = slide_dirs(check_type);
    let mut j: usize = 0;
    while j < slides.len()
        invariant
            j <= slides@.len(),
            small_dirs(slides@),
            1 <= dk_x <= 9,
            1 <= dk_y <= 2,
            forall|q: int| 0 <= q < check_candidates@.len() ==> #[trigger] check_candidates@[q].spec_valid(),
            forall|q: int| 0 <= q < check_candidates@.len() ==> !used@[#[trigger] check_candidates@[q].spec_idx()],
            used@ == ku,
            slides@ == spec_slide_dirs(check_type),
            gm_slides(slides@, dk_x as int, dk_y as int, ku, 0, cb) == gm_slides(slides@, dk_x as int, dk_y as int, ku, j as nat, check_candidates@),
        decreases slides.len() - j,
    {
        let (dx, dy) = slides[j];
        assert(-2 <= slides@[j as int].0 <= 2 && -2 <= slides@[j as int].1 <= 2);
        let (tx, ty) = transform_dir(Owner::Attacker, dx, dy);
        let mut x = dk_x - tx;
        let mut y = dk_y - ty;
        let mut dist: u32 = 0;
        let ghost acc0 = check_candidates@;
        while Pos::new(x, y).is_valid() && dist < 3
            invariant
                -2 <= tx <= 2,
                -2 <= ty <= 2,
                -8 <= x <= 18,
                -8 <= y <= 18,
                dist <= 3,
                forall|q: int| 0 <= q < check_candidates@.len() ==> #[trigger] check_candidates@[q].spec_valid(),
                forall|q: int| 0 <= q < check_candidates@.len() ==> !used@[#[trigger] check_candidates@[q].spec_idx()],
                used@ == ku,
                tx == dx && ty == dy,
                gm_ray(dx as int, dy as int, dk_x - dx, dk_y - dy, ku, 0, acc0) == gm_ray(dx as int, dy as int, x as int, y as int, ku, dist as nat, check_candidates@),
            ensures
                gm_ray(dx as int, dy as int, x as int, y as int, ku, dist as nat, check_candidates@) == check_candidates@,
            decreases 3 - dist,
        {
            let p = Pos::new(x, y);
            if !used[p.idx()] {
                check_candidates.push(p);
            } else {
                break;
            }
            x = x - tx;
            y = y - ty;
            dist = dist + 1;
        }
        j = j + 1;
    }
    let ghost cc = check_candidates@;
    assert(cc == gm_slides(spec_slide_dirs(check_type), dk_x as int, dk_y as int, ku, 0, cb));
    if check_type == PieceType::N {
        let knight_from: [(i8, i8); 2] = [(1, 2), (-1, 2)];
        let mut j: usize = 0;
        while j < 2
            invariant
                j <= 2,
                knight_from@ == seq![(1i8, 2i8), (-1i8, 2i8)],
                1 <= dk_x <= 9,
                1 <= dk_y <= 2,
                forall|q: int| 0 <= q < check_candidates@.len() ==> #[trigger] check_candidates@[q].spec_valid(),
                forall|q: int| 0 <= q < check_candidates@.len() ==> !used@[#[trigger] check_candidates@[q].spec_idx()],
                used@ == ku,
                gm_knight(dk_x as int, dk_y as int, ku, 0, cc) == gm_knight(dk_x as int, dk_y as int, ku, j as nat, check_candidates@),
            decreases 2 - j,
        {
            let (dx, dy) = knight_from[j];
            let pos = Pos::new(dk_x + dx, dk_y + dy);
            if pos.is_valid() && !used[pos.idx()] && pos.y > 2 {
                check_candidates.push(pos);
            }
            j = j + 1;
        }
    }
    proof {
        assert(check_candidates@ == gm_candidates(check_type, dk_x as int, dk_y as int, ku));
        assert(after_blocks.1 == ku);
        assert(check_type == (if drawn(x3, 700000) { gm_checks_near() } else { gm_checks_far() })[pick_at(x4, check_types@.len())]);
    }
    if check_candidates.len() == 0 {
        return None;
    }
    let ghost before_shuffle = check_candidates@;
    let ghost x_before = rng@;
    rng.shuffle(&mut check_candidates);
    proof {
        lemma_shuffle_elements(before_shuffle, x_before);
        assert(before_shuffle.contains(check_candidates@[0]));
        let q = choose|q: int| 0 <= q < before_shuffle.len() && before_shuffle[q] == check_candidates@[0];
        assert(before_shuffle[q].spec_valid());
        assert(!used@[before_shuffle[q].spec_idx()]);
    }
    let check_pos = check_candidates[0];
    if !attacker_can_stand(check_type, check_pos.y) {
        return None;
    }
    proof {
        lemma_place_keeps(state, check_pos, BoardPiece { owner: Owner::Attacker, piece_type: check_type }, dk_pos);
    }
    place(&mut state, check_pos, Owner::Attacker, check_type);
    used[check_pos.idx()] = true;
    let ghost gc0 = (state, used@, rng@);
    let ghost esc = escape_squares@;
    let mut e: usize = 0;
    while e < escape_squares.len()
        invariant
            e <= escape_squares@.len(),
            forall|j: int| 0 <= j < escape_squares@.len() ==> #[trigger] escape_squares@[j].spec_valid(),
            dk_pos.spec_valid(),
            state.wf(),
            state.side_to_move == Owner::Attacker,
            hands_total(state.hands) == 0,
            forall|j: int| 0 <= j < 5 ==> block_types@[j] != PieceType::K,
            state.at(dk_pos.spec_idx()) == Some(dk_piece()),
            no_dead_end(state),
            used@[dk_pos.spec_idx()],
            block_types@ == gm_blocks(),
            escape_squares@ == esc,
            gm_cover_from(gc0, esc, 0, dk_pos) == gm_cover_from((state, used@, rng@), esc, e as nat, dk_pos),
        decreases escape_squares.len() - e,
    {
        let sq = escape_squares[e];
        assert(escape_squares@[e as int].spec_valid());
        let ghost cur = (state, used@, rng@);
        if !used[sq.idx()] {
            let mut test = state;
            test.set(dk_pos, None);
            test.set(sq, Some(BoardPiece { owner: Owner::Defender, piece_type: PieceType::K }));
            if !is_square_attacked(&test, sq, Owner::Attacker) {
                let bt = *rng.pick(&block_types);
                if attacker_can_stand(bt, sq.y) {
                    proof {
                        lemma_place_keeps(state, sq, BoardPiece { owner: Owner::Attacker, piece_type: bt }, dk_pos);
                    }
                    place(&mut state, sq, Owner::Attacker, bt);
                    used[sq.idx()] = true;
                }
            }
        }
        assert((state, used@, rng@) == gm_cover_one(cur, sq, dk_pos));
        e = e + 1;
    }
    assert((state, used@, rng@) == gm_cover_from(gc0, esc, 0, dk_pos));
    if !is_in_check(&state, Owner::Defender) {
        return None;
    }
    let ghost placed = state;
    state.side_to_move = Owner::Defender;
    proof {
        lemma_wf_same(placed, state);
        lemma_room_small(state);
    }
    if has_any_legal_move(&mut state) {
        return None;
    }
    let ghost queried = state;
    state.side_to_move = Owner::Attacker;
    proof {
        lemma_wf_same(placed, state);
        lemma_room_small(state);
        assert(defender_to_move(state) == queried);
        crate::state::lemma_state_ext(state, placed);
        crate::state::lemma_pos_of_idx(dk_pos);
        assert(state.at(dk_pos.spec_idx()) == Some(dk_piece()));
        assert(state.king_cache(Owner::Defender) == Some(crate::state::pos_of(dk_pos.spec_idx())));
    }
    Some(state)
}

/// Whether a square is on the board and empty.
fn empty_square(state: &State, p: Pos) -> (r: bool)
    ensures
        r == (p.spec_valid() && state.at(p.spec_idx()) is None),
{
    p.is_valid() && state.get(p).is_none()
}

/// An empty square on the board for a piece that is not a king.
pub open spec fn free_spot(s: State, c: (Pos, PieceType)) -> bool {
    c.0.spec_valid() && s.at(c.0.spec_idx()) is None && c.1 != PieceType::K
}

pub open spec fn ac_types() -> Seq<PieceType> {
    seq![PieceType::G, PieceType::S, PieceType::R, PieceType::B, PieceType::N, PieceType::P, PieceType::L]
}

/// Squares `kp - d` for the steps `ds[j..]` of a piece of kind `ct`: on the
/// board, empty, and where the piece may stand; appended to `acc`.
pub open spec fn ac_steps(s: State, ct: PieceType, ds: Seq<(i8, i8)>, kp: Pos, j: nat, acc: Seq<(Pos, PieceType)>) -> Seq<(Pos, PieceType)>
    decreases ds.len() - j,
{
    if j >= ds.len() {
        acc
    } else {
        let p = Pos { x: (kp.x - ds[j as int].0) as i8, y: (kp.y - ds[j as int].1) as i8 };
        ac_steps(s, ct, ds, kp, j + 1, if p.spec_valid() && s.at(p.spec_idx()) is None && !crate::movegen::spec_no_go(
            Owner::Attacker,
            ct,
            p.y as int,
        ) {
            acc.push((p, ct))
        } else {
            acc
        })
    }
}

/// Up to three empty squares from `(x, y)` on in steps of `(-dx, -dy)`,
/// stopping at the first piece; a lance not on the first row.
pub open spec fn ac_ray(s: State, ct: PieceType, dx: int, dy: int, x: int, y: int, dist: nat, acc: Seq<(Pos, PieceType)>) -> Seq<(Pos, PieceType)>
    decreases 3 - dist,
{
    let p = Pos { x: x as i8, y: y as i8 };
    if dist >= 3 || !(-128 <= x <= 127 && -128 <= y <= 127) || !p.spec_valid() || s.at(p.spec_idx()) is Some {
        acc
    } else {
        ac_ray(s, ct, dx, dy, x - dx, y - dy, dist + 1, if ct != PieceType::L || p.y > 1 { acc.push((p, ct)) } else { acc })
    }
}

pub open spec fn ac_slides(s: State, ct: PieceType, ds: Seq<(i8, i8)>, kp: Pos, j: nat, acc: Seq<(Pos, PieceType)>) -> Seq<(Pos, PieceType)>
    decreases ds.len() - j,
{
    if j >= ds.len() {
        acc
    } else {
        let d = ds[j as int];
        ac_slides(s, ct, ds, kp, j + 1, ac_ray(s, ct, d.0 as int, d.1 as int, kp.x - d.0, kp.y - d.1, 0, acc))
    }
}

pub open spec fn ac_kinds(s: State, kp: Pos, c: nat, acc: Seq<(Pos, PieceType)>) -> Seq<(Pos, PieceType)>
    decreases 7 - c,
{
    if c >= 7 {
        acc
    } else {
        let ct = ac_types()[c as int];
        let a = ac_steps(s, ct, spec_step_moves(ct), kp, 0, acc);
        ac_kinds(s, kp, c + 1, ac_slides(s, ct, spec_slide_dirs(ct), kp, 0, a))
    }
}

pub open spec fn ac_knight(s: State, kp: Pos, j: nat, acc: Seq<(Pos, PieceType)>) -> Seq<(Pos, PieceType)>
    decreases 2 - j,
{
    if j >= 2 {
        acc
    } else {
        let d = seq![(1i8, 2i8), (-1i8, 2i8)][j as int];
        let p = Pos { x: (kp.x + d.0) as i8, y: (kp.y + d.1) as i8 };
        ac_knight(s, kp, j + 1, if p.spec_valid() && s.at(p.spec_idx()) is None && p.y > 2 {
            acc.push((p, PieceType::N))
        } else {
            acc
        })
    }
}

/// What `add_checking_piece` gives for `s`, the king on `kp` and generator
/// state `x`: one of the empty squares from which a gold, silver, rook,
/// bishop, knight, pawn or lance would check the king, drawn by shuffling,
/// kept when the king is then in check.
pub open spec fn ac_spec(s: State, kp: Pos, x: u64) -> (Option<State>, u64) {
    let cands = ac_knight(s, kp, 0, ac_kinds(s, kp, 0, seq![]));
    if cands.len() == 0 {
        (None, x)
    } else {
        let (sh, x1) = crate::rng::shuffle_spec(cands, x);
        let t = spec_set(s, sh[0].0, Some(BoardPiece { owner: Owner::Attacker, piece_type: sh[0].1 }));
        if spec_in_check(t, Owner::Defender) {
            (Some(t), x1)
        } else {
            (None, x1)
        }
    }
}

/// Add, at random, an attacker piece that checks the king on `king_pos`.
fn add_checking_piece(rng: &mut Rng, state: &State, king_pos: Pos) -> (r: Option<State>)
    requires
        state.wf(),
        king_pos.spec_valid(),
    ensures
        r matches Some(t) ==> t.wf() && spec_in_check(t, Owner::Defender) && t.hands == state.hands
            && t.side_to_move == state.side_to_move && t.king_cache(Owner::Defender) == state.king_cache(
            Owner::Defender,
        ),
        (r, final(rng)@) == ac_spec(*state, king_pos, old(rng)@),
{
    let check_types: [PieceType; 7] = [
        PieceType::G,
        PieceType::S,
        PieceType::R,
        PieceType::B,
        PieceType::N,
        PieceType::P,
        PieceType::L,
    ];
    assert(check_types@ =~= ac_types());
    let mut candidates: Vec<(Pos, PieceType)> = Vec::new();
    let mut c: usize = 0;
    while c < 7
        invariant
            c <= 7,
            king_pos.spec_valid(),
            forall|q: int| 0 <= q < 7 ==> check_types@[q] != PieceType::K,
            forall|q: int| 0 <= q < candidates@.len() ==> #[trigger] free_spot(*state, candidates@[q]),
            check_types@ == ac_types(),
            ac_kinds(*state, king_pos, 0, seq![]) == ac_kinds(*state, king_pos, c as nat, candidates@),
        decreases 7 - c,
    {
        let ct = check_types[c];
        let ghost acc_c = candidates@;
        proof {
            lemma_dirs_small(ct);
        }
        let steps = step_moves(ct);
        let mut j: usize = 0;
        while j < steps.len()
            invariant
                j <= steps@.len(),
                small_dirs(steps@),
                king_pos.spec_valid(),
                ct != PieceType::K,
                forall|q: int| 0 <= q < candidates@.len() ==> #[trigger] free_spot(*state, candidates@[q]),
                steps@ == spec_step_moves(ct),
                ac_steps(*state, ct, steps@, king_pos, 0, acc_c) == ac_steps(*state, ct, steps@, king_pos, j as nat, candidates@),
            decreases steps.len() - j,
        {
            let (dx, dy) = steps[j];
            assert(-2 <= steps@[j as int].0 <= 2 && -2 <= steps@[j as int].1 <= 2);
            let (tx, ty) = transform_dir(Owner::Attacker, dx, dy);
            let from = Pos::new(king_pos.x - tx, king_pos.y - ty);
            if empty_square(state, from) && attacker_can_stand(ct, from.y) {
                candidates.push((from, ct));
            }
            j = j + 1;
        }
        let ghost acc_s = candidates@;
        let slides = slide_dirs(ct);
        let mut j: usize = 0;
        while j < slides.len()
            invariant
                j <= slides@.len(),
                small_dirs(slides@),
                king_pos.spec_valid(),
                ct != PieceType::K,
                forall|q: int| 0 <= q < candidates@.len() ==> #[trigger] free_spot(*state, candidates@[q]),
                slides@ == spec_slide_dirs(ct),
                ac_slides(*state, ct, slides@, king_pos, 0, acc_s) == ac_slides(*state, ct, slides@, king_pos, j as nat, candidates@),
            decreases slides.len() - j,
        {
            let (dx, dy) = slides[j];
            assert(-2 <= slides@[j as int].0 <= 2 && -2 <= slides@[j as int].1 <= 2);
            let (tx, ty) = transform_dir(Owner::Attacker, dx, dy);
            let mut x = king_pos.x - tx;
            let mut y = king_pos.y - ty;
            let mut dist: u32 = 0;
            let ghost acc0 = candidates@;
            while Pos::new(x, y).is_valid() && dist < 3
                invariant
                    -2 <= tx <= 2,
                    -2 <= ty <= 2,
                    -8 <= x <= 18,
                    -8 <= y <= 18,
                    dist <= 3,
                    ct != PieceType::K,
                    forall|q: int| 0 <= q < candidates@.len() ==> #[trigger] free_spot(*state, candidates@[q]),
                    tx == dx && ty == dy,
                    ac_ray(*state, ct, dx as int, dy as int, king_pos.x - dx, king_pos.y - dy, 0, acc0)
                        == ac_ray(*state, ct, dx as int, dy as int, x as int, y as int, dist as nat, candidates@),
                ensures
                    ac_ray(*state, ct, dx as int, dy as int, x as int, y as int, dist as nat, candidates@) == candidates@,
                decreases 3 - dist,
            {
                let p = Pos::new(x, y);
                if state.get(p).is_some() {
                    break;
                }
                let ok = match ct {
                    PieceType::L => p.y > 1,
                    _ => true,
                };
                if ok {
                    candidates.push((p, ct));
                }
                x = x - tx;
                y = y - ty;
                dist = dist + 1;
            }
            j = j + 1;
        }
        c = c + 1;
    }
    let ghost acc_k = candidates@;
    let knight_from: [(i8, i8); 2] = [(1, 2), (-1, 2)];
    let mut j: usize = 0;
    while j < 2
        invariant
            j <= 2,
            knight_from@ == seq![(1i8, 2i8), (-1i8, 2i8)],
            king_pos.spec_valid(),
            forall|q: int| 0 <= q < candidates@.len() ==> #[trigger] free_spot(*state, candidates@[q]),
            ac_knight(*state, king_pos, 0, acc_k) == ac_knight(*state, king_pos, j as nat, candidates@),
        decreases 2 - j,
    {
        let (dx, dy) = knight_from[j];
        let from = Pos::new(king_pos.x + dx, king_pos.y + dy);
        if empty_square(state, from) && from.y > 2 {
            candidates.push((from, PieceType::N));
        }
        j = j + 1;
    }
    assert(candidates@ == ac_knight(*state, king_pos, 0, ac_kinds(*state, king_pos, 0, seq![])));
    if candidates.len() == 0 {
        return None;
    }
    let ghost before = candidates@;
    let ghost x0 = rng@;
    rng.shuffle(&mut candidates);
    proof {
        lemma_shuffle_elements(before, x0);
        assert(before.contains(candidates@[0]));
        let q = choose|q: int| 0 <= q < before.len() && before[q] == candidates@[0];
        assert(free_spot(*state, before[q]));
    }
    let (pos, piece_type) = candidates[0];
    let mut new_state = *state;
    place(&mut new_state, pos, Owner::Attacker, piece_type);
    if !is_in_check(&new_state, Owner::Defender) {
        return None;
    }
    Some(new_state)
}

/// The empty squares next to `dk` on the board, in the order of the king's
/// directions from direction `i` on, appended to `acc`.
pub open spec fn ud_empty_neighbors(s: State, dk: Pos, i: nat, acc: Seq<Pos>) -> Seq<Pos>
    decreases 8 - i,
{
    if i >= 8 {
        acc
    } else {
        let d = crate::attacks::king_dirs()[i as int];
        let p = Pos { x: (dk.x + d.0) as i8, y: (dk.y + d.1) as i8 };
        ud_empty_neighbors(s, dk, i + 1, if p.spec_valid() && s.at(p.spec_idx()) is None { acc.push(p) } else { acc })
    }
}

/// The defender's king put back on `from`, `left` left on the square `dk` it
/// came to, the defender to move.
pub open spec fn king_back(s: State, dk: Pos, left: Option<BoardPiece>, from: Pos) -> State {
    State { side_to_move: Owner::Defender, ..spec_set(spec_set(s, dk, left), from, Some(dk_piece())) }
}

/// Trying the origins `fs[k..]` of the defender king's move in turn: the
/// first where the king is in check, or where a checking piece can be added.
pub open spec fn ud_tries(s: State, dk: Pos, left: Option<BoardPiece>, fs: Seq<Pos>, k: nat, x: u64) -> (Option<State>, u64)
    decreases fs.len() - k,
{
    if k >= fs.len() {
        (None, x)
    } else {
        let t = king_back(s, dk, left, fs[k as int]);
        if spec_in_check(t, Owner::Defender) {
            (Some(t), x)
        } else {
            let (r, x1) = ac_spec(t, fs[k as int], x);
            if r is Some {
                (r, x1)
            } else {
                ud_tries(s, dk, left, fs, k + 1, x1)
            }
        }
    }
}

/// What undoing a move of the defender's king gives: the empty squares next
/// to the king shuffled and tried in turn (see `ud_tries`), `left` left on
/// the king's square.
pub open spec fn ud_king_spec(s: State, dk: Pos, left: Option<BoardPiece>, x: u64) -> (Option<State>, u64) {
    let fs = ud_empty_neighbors(s, dk, 0, seq![]);
    if fs.len() == 0 {
        (None, x)
    } else {
        let (sh, x1) = crate::rng::shuffle_spec(fs, x);
        ud_tries(s, dk, left, sh, 0, x1)
    }
}

pub open spec fn ud_capture_types() -> Seq<PieceType> {
    seq![PieceType::G, PieceType::S, PieceType::P, PieceType::N, PieceType::L, PieceType::R, PieceType::B]
}

/// What undoing a capture by the defender's king gives: a drawn attacker
/// piece put back on the king's square, then as `ud_king_spec`.
pub open spec fn ud_capture_spec(s: State, dk: Pos, x: u64) -> (Option<State>, u64) {
    let t = ud_capture_types()[pick_at(x, 7)];
    ud_king_spec(s, dk, Some(BoardPiece { owner: Owner::Attacker, piece_type: t }), crate::zobrist::xorshift64(x))
}

/// Undo a defender king move: put the king back on an empty neighbouring
/// square (checked there by an existing piece or a new one).
fn unwind_defender_king_move(rng: &mut Rng, state: &State, dk_pos: Pos) -> (r: Option<State>)
    requires
        state.wf(),
        state.king_cache(Owner::Defender) == Some(dk_pos),
    ensures
        r matches Some(t) ==> t.wf() && t.side_to_move == Owner::Defender && spec_in_check(t, Owner::Defender)
            && t.hands == state.hands,
        (r, final(rng)@) == ud_king_spec(*state, dk_pos, None, old(rng)@),
{
    let ghost x0 = rng@;
    let kd = king_dirs_exec();
    let mut from_candidates: Vec<Pos> = Vec::new();
    let mut i: usize = 0;
    while i < 8
        invariant
            i <= 8,
            kd@ == crate::attacks::king_dirs(),
            dk_pos.spec_valid(),
            forall|q: int| 0 <= q < from_candidates@.len() ==> #[trigger] from_candidates@[q].spec_valid(),
            ud_empty_neighbors(*state, dk_pos, 0, seq![]) == ud_empty_neighbors(*state, dk_pos, i as nat, from_candidates@),
        decreases 8 - i,
    {
        let (dx, dy) = kd[i];
        let old_pos = Pos::new(dk_pos.x + dx, dk_pos.y + dy);
        if empty_square(state, old_pos) {
            from_candidates.push(old_pos);
        }
        i = i + 1;
    }
    if from_candidates.len() == 0 {
        return None;
    }
    let ghost before = from_candidates@;
    let ghost x0 = rng@;
    rng.shuffle(&mut from_candidates);
    proof {
        lemma_shuffle_elements(before, x0);
    }
    let mut k: usize = 0;
    while k < from_candidates.len()
        invariant
            k <= from_candidates@.len(),
            from_candidates@.len() == before.len(),
            forall|q: int| 0 <= q < before.len() ==> #[trigger] before[q].spec_valid(),
            forall|q: int| 0 <= q < before.len() ==> before.contains(#[trigger] from_candidates@[q]),
            state.wf(),
            state.king_cache(Owner::Defender) == Some(dk_pos),
            ud_king_spec(*state, dk_pos, None, x0) == ud_tries(*state, dk_pos, None, from_candidates@, k as nat, rng@),
            x0 == old(rng)@,
        decreases from_candidates.len() - k,
    {
        let old_king_pos = from_candidates[k];
        proof {
            assert(before.contains(from_candidates@[k as int]));
            let q = choose|q: int| 0 <= q < before.len() && before[q] == from_candidates@[k as int];
            assert(before[q].spec_valid());
        }
        let mut new_state = *state;
        proof {
            lemma_set_wf(new_state, dk_pos, None);
        }
        new_state.set(dk_pos, None);
        let ghost cleared = new_state;
        proof {
            lemma_set_wf(new_state, old_king_pos, Some(BoardPiece { owner: Owner::Defender, piece_type: PieceType::K }));
        }
        new_state.set(old_king_pos, Some(BoardPiece { owner: Owner::Defender, piece_type: PieceType::K }));
        let ghost placed = new_state;
        new_state.side_to_move = Owner::Defender;
        proof {
            lemma_wf_same(placed, new_state);
        }
        assert(new_state == king_back(*state, dk_pos, None, old_king_pos));
        if is_in_check(&new_state, Owner::Defender) {
            return Some(new_state);
        }
        if let Some(checked) = add_checking_piece(rng, &new_state, old_king_pos) {
            return Some(checked);
        }
        k = k + 1;
    }
    None
}

/// Undo a capture by the defender's king: put the taken attacker piece back
/// and the king on an empty neighbouring square.
fn unwind_defender_capture(rng: &mut Rng, state: &State, dk_pos: Pos) -> (r: Option<State>)
    requires
        state.wf(),
        state.king_cache(Owner::Defender) == Some(dk_pos),
    ensures
        r matches Some(t) ==> t.wf() && t.side_to_move == Owner::Defender && spec_in_check(t, Owner::Defender)
            && t.hands == state.hands,
        (r, final(rng)@) == ud_capture_spec(*state, dk_pos, old(rng)@),
{
    let ghost x0 = rng@;
    let capture_types: [PieceType; 7] = [
        PieceType::G,
        PieceType::S,
        PieceType::P,
        PieceType::N,
        PieceType::L,
        PieceType::R,
        PieceType::B,
    ];
    assert(capture_types@ =~= ud_capture_types());
    let captured_type = *rng.pick(&capture_types);
    let ghost left = Some(BoardPiece { owner: Owner::Attacker, piece_type: captured_type });
    let ghost x1 = rng@;
    assert(ud_capture_spec(*state, dk_pos, x0) == ud_king_spec(*state, dk_pos, left, x1));
    assert(captured_type != PieceType::K);
    let kd = king_dirs_exec();
    let mut from_candidates: Vec<Pos> = Vec::new();
    let mut i: usize = 0;
    while i < 8
        invariant
            i <= 8,
            kd@ == crate::attacks::king_dirs(),
            dk_pos.spec_valid(),
            forall|q: int| 0 <= q < from_candidates@.len() ==> #[trigger] from_candidates@[q].spec_valid(),
            ud_empty_neighbors(*state, dk_pos, 0, seq![]) == ud_empty_neighbors(*state, dk_pos, i as nat, from_candidates@),
        decreases 8 - i,
    {
        let (dx, dy) = kd[i];
        let old_pos = Pos::new(dk_pos.x + dx, dk_pos.y + dy);
        if empty_square(state, old_pos) {
            from_candidates.push(old_pos);
        }
        i = i + 1;
    }
    if from_candidates.len() == 0 {
        return None;
    }
    let ghost before = from_candidates@;
    let ghost x0 = rng@;
    rng.shuffle(&mut from_candidates);
    proof {
        lemma_shuffle_elements(before, x0);
    }
    let mut k: usize = 0;
    while k < from_candidates.len()
        invariant
            k <= from_candidates@.len(),
            from_candidates@.len() == before.len(),
            forall|q: int| 0 <= q < before.len() ==> #[trigger] before[q].spec_valid(),
            forall|q: int| 0 <= q < before.len() ==> before.contains(#[trigger] from_candidates@[q]),
            state.wf(),
            state.king_cache(Owner::Defender) == Some(dk_pos),
            captured_type != PieceType::K,
            left == Some(BoardPiece { owner: Owner::Attacker, piece_type: captured_type }),
            ud_king_spec(*state, dk_pos, left, x1) == ud_tries(*state, dk_pos, left, from_candidates@, k as nat, rng@),
            ud_capture_spec(*state, dk_pos, old(rng)@) == ud_king_spec(*state, dk_pos, left, x1),
        decreases from_candidates.len() - k,
    {
        let old_king_pos = from_candidates[k];
        proof {
            assert(before.contains(from_candidates@[k as int]));
            let q = choose|q: int| 0 <= q < before.len() && before[q] == from_candidates@[k as int];
            assert(before[q].spec_valid());
        }
        let mut new_state = *state;
        place(&mut new_state, dk_pos, Owner::Attacker, captured_type);
        proof {
            lemma_set_wf(new_state, old_king_pos, Some(BoardPiece { owner: Owner::Defender, piece_type: PieceType::K }));
        }
        new_state.set(old_king_pos, Some(BoardPiece { owner: Owner::Defender, piece_type: PieceType::K }));
        let ghost placed = new_state;
        new_state.side_to_move = Owner::Defender;
        proof {
            lemma_wf_same(placed, new_state);
        }
        assert(new_state == king_back(*state, dk_pos, left, old_king_pos));
        if is_in_check(&new_state, Owner::Defender) {
            return Some(new_state);
        }
        if let Some(checked) = add_checking_piece(rng, &new_state, old_king_pos) {
            return Some(checked);
        }
        k = k + 1;
    }
    None
}

/// The sliding checkers among `cks[i..]` that stand more than one square
/// from the king on `dk`, appended to `acc`.
pub open spec fn ui_sliders(cks: Seq<(Pos, BoardPiece)>, dk: Pos, i: nat, acc: Seq<(Pos, BoardPiece)>) -> Seq<(Pos, BoardPiece)>
    decreases cks.len() - i,
{
    if i >= cks.len() {
        acc
    } else {
        let c = cks[i as int];
        ui_sliders(cks, dk, i + 1, if crate::pieces::spec_is_sliding_piece(c.1.piece_type) && (crate::attacks::abs(dk.x - c.0.x) > 1
            || crate::attacks::abs(dk.y - c.0.y) > 1) {
            acc.push(c)
        } else {
            acc
        })
    }
}

/// What undoing an interposition gives: a drawn distant sliding checker, a
/// drawn square between it and the king, a drawn defender piece put there
/// (a pawn or lance not on the last row, a knight not on the last two),
/// and, when the king is then no longer in check, a checking piece added.
pub open spec fn ui_spec(s: State, dk: Pos, x: u64) -> (Option<State>, u64) {
    let sl = ui_sliders(spec_checkers(s, Owner::Defender), dk, 0, seq![]);
    if sl.len() == 0 {
        (None, x)
    } else {
        let ck = sl[pick_at(x, sl.len())];
        let x1 = crate::zobrist::xorshift64(x);
        let interp = crate::attacks::interp_seq(ck.0, dk);
        if interp.len() == 0 {
            (None, x1)
        } else {
            let bp = interp[pick_at(x1, interp.len())];
            let x2 = crate::zobrist::xorshift64(x1);
            let bt = ud_capture_types()[pick_at(x2, 7)];
            let x3 = crate::zobrist::xorshift64(x2);
            if ((bt == PieceType::P || bt == PieceType::L) && bp.y >= 9) || (bt == PieceType::N && bp.y >= 8) {
                (None, x3)
            } else {
                let t = State {
                    side_to_move: Owner::Defender,
                    ..spec_set(s, bp, Some(BoardPiece { owner: Owner::Defender, piece_type: bt }))
                };
                if spec_in_check(t, Owner::Defender) {
                    (Some(t), x3)
                } else {
                    ac_spec(t, dk, x3)
                }
            }
        }
    }
}

/// Undo an interposition by the defender: put a defender piece between the
/// king and a distant sliding checker (the king then checked by another piece).
pub fn unwind_defender_interpose(rng: &mut Rng, state: &State, dk_pos: Pos) -> (r: Option<State>)
    requires
        state.wf(),
        state.king_cache(Owner::Defender) == Some(dk_pos),
    ensures
        r matches Some(t) ==> t.wf() && t.side_to_move == Owner::Defender && spec_in_check(t, Owner::Defender)
            && t.hands == state.hands,
        (r, final(rng)@) == ui_spec(*state, dk_pos, old(rng)@),
{
    let checkers = find_checkers(state, Owner::Defender);
    proof {
        lemma_checkers_ok(*state, Owner::Defender);
    }
    let mut sliders: Vec<(Pos, BoardPiece)> = Vec::new();
    let mut i: usize = 0;
    while i < checkers.len()
        invariant
            i <= checkers@.len(),
            checkers@ == spec_checkers(*state, Owner::Defender),
            dk_pos.spec_valid(),
            forall|q: int| 0 <= q < checkers@.len() ==> #[trigger] checker_ok(*state, dk_pos, Owner::Attacker, checkers@[q]),
            forall|q: int| 0 <= q < sliders@.len() ==> #[trigger] checker_ok(*state, dk_pos, Owner::Attacker, sliders@[q]),
            forall|q: int| 0 <= q < sliders@.len() ==> crate::pieces::spec_is_sliding_piece(#[trigger] sliders@[q].1.piece_type),
            ui_sliders(checkers@, dk_pos, 0, seq![]) == ui_sliders(checkers@, dk_pos, i as nat, sliders@),
        decreases checkers.len() - i,
    {
        let (pos, bp) = checkers[i];
        assert(checker_ok(*state, dk_pos, Owner::Attacker, checkers@[i as int]));
        let ghost prev = sliders@;
        if is_sliding_piece(bp.piece_type) && (abs8(dk_pos.x - pos.x) > 1 || abs8(dk_pos.y - pos.y) > 1) {
            sliders.push((pos, bp));
            assert forall|q: int| 0 <= q < sliders@.len() implies #[trigger] checker_ok(*state, dk_pos, Owner::Attacker, sliders@[q]) by {
                if q < prev.len() {
                    assert(sliders@[q] == prev[q]);
                } else {
                    assert(sliders@[q] == checkers@[i as int]);
                }
            }
            assert forall|q: int| 0 <= q < sliders@.len() implies crate::pieces::spec_is_sliding_piece(#[trigger] sliders@[q].1.piece_type) by {
                if q < prev.len() {
                    assert(sliders@[q] == prev[q]);
                }
            }
        }
        i = i + 1;
    }
    if sliders.len() == 0 {
        return None;
    }
    let ghost x0 = rng@;
    let (ck_pos, ck_bp) = *rng.pick(sliders.as_slice());
    proof {
        let q = ((crate::zobrist::xorshift64(x0) as usize) as nat % sliders@.len()) as int;
        assert(checker_ok(*state, dk_pos, Owner::Attacker, sliders@[q]));
        crate::legal::lemma_interp_valid(ck_pos, dk_pos);
    }
    let interp = interposition_squares(ck_pos, dk_pos);
    if interp.len() == 0 {
        return None;
    }
    let ghost x1 = rng@;
    let block_pos = *rng.pick(interp.as_slice());
    proof {
        let q = ((crate::zobrist::xorshift64(x1) as usize) as nat % interp@.len()) as int;
        assert(interp@[q].spec_valid());
    }
    let block_types: [PieceType; 7] = [
        PieceType::G,
        PieceType::S,
        PieceType::P,
        PieceType::N,
        PieceType::L,
        PieceType::R,
        PieceType::B,
    ];
    assert(block_types@ =~= ud_capture_types());
    let block_type = *rng.pick(&block_types);
    assert(block_type != PieceType::K);
    match block_type {
        PieceType::P | PieceType::L => {
            if block_pos.y >= 9 {
                return None;
            }
        },
        PieceType::N => {
            if block_pos.y >= 8 {
                return None;
            }
        },
        _ => {},
    }
    let mut new_state = *state;
    place(&mut new_state, block_pos, Owner::Defender, block_type);
    let ghost placed = new_state;
    new_state.side_to_move = Owner::Defender;
    proof {
        lemma_wf_same(placed, new_state);
    }
    if is_in_check(&new_state, Owner::Defender) {
        return Some(new_state);
    }
    add_checking_piece(rng, &new_state, dk_pos)
}

/// Empty squares among the first `n` neighbours of `kp`.
pub open spec fn empty_neighbors(s: State, kp: Pos, n: nat) -> nat
    decreases n,
{
    if n == 0 {
        0
    } else {
        let d = crate::attacks::king_dirs()[n - 1];
        let q = Pos { x: (kp.x + d.0) as i8, y: (kp.y + d.1) as i8 };
        empty_neighbors(s, kp, (n - 1) as nat) + if crate::pieces::valid_xy(kp.x + d.0, kp.y + d.1) && s.at(
            q.spec_idx(),
        ) is None {
            1nat
        } else {
            0nat
        }
    }
}

/// Sliding pieces among the first `n` checkers.
pub open spec fn sliding_count(cks: Seq<(Pos, BoardPiece)>, n: nat) -> nat
    decreases n,
{
    if n == 0 || n > cks.len() {
        0
    } else {
        sliding_count(cks, (n - 1) as nat) + if crate::pieces::spec_is_sliding_piece(cks[n - 1].1.piece_type) {
            1nat
        } else {
            0nat
        }
    }
}

/// The statistics of an unwound defender position: its score (empty
/// neighbours times 8 plus sliding checkers times 3, less contact checkers
/// times 2, never below 0), the empty neighbours of the king, the sliding
/// checkers and the other checkers.
pub open spec fn unwind_stats(s: State) -> Option<(int, int, int, int)> {
    match s.king_cache(Owner::Defender) {
        None => None,
        Some(dk) => {
            let cks = spec_checkers(s, Owner::Defender);
            let e = empty_neighbors(s, dk, 8) as int;
            let sc = sliding_count(cks, cks.len()) as int;
            let cc = cks.len() - sc;
            let raw = e * 8 + sc * 3 - cc * 2;
            Some((if raw < 0 { 0 } else { raw }, e, sc, cc))
        },
    }
}

proof fn lemma_empty_neighbors_le(s: State, kp: Pos, n: nat)
    ensures
        empty_neighbors(s, kp, n) <= n,
    decreases n,
{
    if n > 0 {
        lemma_empty_neighbors_le(s, kp, (n - 1) as nat);
    }
}

proof fn lemma_sliding_count_le(cks: Seq<(Pos, BoardPiece)>, n: nat)
    ensures
        sliding_count(cks, n) <= n,
        n <= cks.len() ==> sliding_count(cks, n) <= cks.len(),
    decreases n,
{
    if n > 0 {
        lemma_sliding_count_le(cks, (n - 1) as nat);
    }
}

proof fn lemma_checkers_len(s: State, o: Owner)
    ensures
        spec_checkers(s, o).len() <= 18,
{
    if let Some(kp) = s.king_cache(o) {
        let a = o.spec_opposite();
        lemma_part_len_neighbor(s, kp, a, 8);
        lemma_part_len_knight(s, kp, a, 2);
        lemma_part_len_orth(s, kp, a, 4);
        lemma_part_len_diag(s, kp, a, 4);
    }
}

proof fn lemma_part_len_neighbor(s: State, kp: Pos, a: Owner, n: nat)
    ensures
        crate::attacks::neighbor_checkers(s, kp, a, n).len() <= n,
    decreases n,
{
    if n > 0 {
        lemma_part_len_neighbor(s, kp, a, (n - 1) as nat);
    }
}

proof fn lemma_part_len_knight(s: State, kp: Pos, a: Owner, n: nat)
    ensures
        crate::attacks::knight_checkers(s, kp, a, n).len() <= n,
    decreases n,
{
    if n > 0 {
        lemma_part_len_knight(s, kp, a, (n - 1) as nat);
    }
}

proof fn lemma_part_len_orth(s: State, kp: Pos, a: Owner, n: nat)
    ensures
        crate::attacks::orth_checkers(s, kp, a, n).len() <= n,
    decreases n,
{
    if n > 0 {
        lemma_part_len_orth(s, kp, a, (n - 1) as nat);
    }
}

proof fn lemma_part_len_diag(s: State, kp: Pos, a: Owner, n: nat)
    ensures
        crate::attacks::diag_checkers(s, kp, a, n).len() <= n,
    decreases n,
{
    if n > 0 {
        lemma_part_len_diag(s, kp, a, (n - 1) as nat);
    }
}

/// The statistics of an unwound defender position (see `unwind_stats`).
fn defender_unwind_stats(state: &State) -> (r: Option<(u32, u32, u32, u32)>)
    requires
        state.wf(),
    ensures
        match (r, unwind_stats(*state)) {
            (None, None) => true,
            (Some(a), Some(b)) => a.0 as int == b.0 && a.1 as int == b.1 && a.2 as int == b.2 && a.3 as int
                == b.3,
            _ => false,
        },
{
    let dk = match state.king_pos(Owner::Defender) {
        Some(p) => p,
        None => {
            return None;
        },
    };
    let kd = king_dirs_exec();
    let mut empty_around: u32 = 0;
    let mut i: usize = 0;
    while i < 8
        invariant
            i <= 8,
            kd@ == crate::attacks::king_dirs(),
            dk.spec_valid(),
            empty_around as int == empty_neighbors(*state, dk, i as nat),
        decreases 8 - i,
    {
        let (dx, dy) = kd[i];
        proof {
            lemma_empty_neighbors_le(*state, dk, i as nat);
        }
        if empty_square(state, Pos::new(dk.x + dx, dk.y + dy)) {
            empty_around = empty_around + 1;
        }
        i = i + 1;
    }
    let checkers = find_checkers(state, Owner::Defender);
    proof {
        lemma_checkers_len(*state, Owner::Defender);
    }
    let mut slider_count: u32 = 0;
    let mut j: usize = 0;
    while j < checkers.len()
        invariant
            j <= checkers@.len(),
            checkers@.len() <= 18,
            slider_count as int == sliding_count(checkers@, j as nat),
        decreases checkers.len() - j,
    {
        proof {
            lemma_sliding_count_le(checkers@, j as nat);
        }
        if is_sliding_piece(checkers[j].1.piece_type) {
            slider_count = slider_count + 1;
        }
        j = j + 1;
    }
    proof {
        lemma_sliding_count_le(checkers@, checkers@.len());
        lemma_empty_neighbors_le(*state, dk, 8);
    }
    let contact_count = checkers.len() as u32 - slider_count;
    let score = (empty_around * 8 + slider_count * 3).saturating_sub(contact_count * 2);
    Some((score, empty_around, slider_count, contact_count))
}

/// The score of an unwound defender position, or none when it is refused:
/// five or more empty squares around the king, or two sliding checkers and
/// no contact checker.
pub open spec fn accept_spec(s: State) -> Option<int> {
    match unwind_stats(s) {
        None => None,
        Some(st) => if st.1 >= 5 || (st.2 >= 2 && st.3 == 0) {
            None
        } else {
            Some(st.0)
        },
    }
}

fn accept_defender_unwind(state: &State) -> (r: Option<u32>)
    requires
        state.wf(),
    ensures
        match (r, accept_spec(*state)) {
            (None, None) => true,
            (Some(a), Some(b)) => a as int == b,
            _ => false,
        },
{
    let (score, empty_around, slider_count, contact_count) = match defender_unwind_stats(state) {
        Some(st) => st,
        None => {
            return None;
        },
    };
    if empty_around >= 5 {
        return None;
    }
    if slider_count >= 2 && contact_count == 0 {
        return None;
    }
    Some(score)
}

/// A position just before the defender's last move: the defender to move,
/// its king in check.
pub open spec fn defender_unwound(t: State, s: State) -> bool {
    t.wf() && t.side_to_move == Owner::Defender && spec_in_check(t, Owner::Defender) && t.hands == s.hands
}

/// `c` with the unwound position `r` added, with its score, when the
/// statistics accept it.
pub open spec fn ud_add(c: Seq<(int, State)>, r: Option<State>) -> Seq<(int, State)> {
    match r {
        Some(t) => match accept_spec(t) {
            Some(sc) => c.push((sc, t)),
            None => c,
        },
        None => c,
    }
}

/// The lowest score among the first `n` candidates.
pub open spec fn min_score(c: Seq<(int, State)>, n: nat) -> int
    decreases n,
{
    if n <= 1 {
        c[0].0
    } else {
        let m = min_score(c, (n - 1) as nat);
        if c[n - 1].0 < m {
            c[n - 1].0
        } else {
            m
        }
    }
}

/// The indices of the candidates `c[i..]` with score `m`, appended to `acc`.
pub open spec fn best_at(c: Seq<(int, State)>, m: int, i: nat, acc: Seq<usize>) -> Seq<usize>
    decreases c.len() - i,
{
    if i >= c.len() {
        acc
    } else {
        best_at(c, m, i + 1, if c[i as int].0 == m { acc.push(i as usize) } else { acc })
    }
}

/// The exec candidates list holds the spec candidates.
pub open spec fn cands_match(v: Seq<(u32, State)>, c: Seq<(int, State)>) -> bool {
    v.len() == c.len() && forall|q: int| 0 <= q < v.len() ==> #[trigger] v[q].0 as int == c[q].0 && v[q].1 == c[q].1
}

/// What undoing a defender move gives: a king move, a capture by the king
/// and an interposition are tried in turn, those the statistics accept are
/// kept, and one with the lowest score is drawn.
#[verifier::opaque]
pub open spec fn udm_spec(s: State, x: u64) -> (Option<State>, u64) {
    match s.king_cache(Owner::Defender) {
        None => (None, x),
        Some(dk) => {
            let (r1, x1) = ud_king_spec(s, dk, None, x);
            let (r2, x2) = ud_capture_spec(s, dk, x1);
            let (r3, x3) = ui_spec(s, dk, x2);
            let c = ud_add(ud_add(ud_add(seq![], r1), r2), r3);
            if c.len() == 0 {
                (None, x3)
            } else {
                let b = best_at(c, min_score(c, c.len()), 0, seq![]);
                if b.len() == 0 {
                    (None, x3)
                } else {
                    (Some(c[b[pick_at(x3, b.len())] as int].1), crate::zobrist::xorshift64(x3))
                }
            }
        },
    }
}

/// Up to `n` tries of undoing a defender move.
#[verifier::opaque]
pub open spec fn tud_spec(s: State, n: nat, x: u64) -> (Option<State>, u64)
    decreases n,
{
    if n == 0 {
        (None, x)
    } else {
        let (r, x1) = udm_spec(s, x);
        if r is Some {
            (r, x1)
        } else {
            tud_spec(s, (n - 1) as nat, x1)
        }
    }
}

/// Up to `n` tries of undoing an attacker move.
#[verifier::opaque]
pub open spec fn tua_spec(s: State, n: nat, x: u64) -> (Option<State>, u64)
    decreases n,
{
    if n == 0 {
        (None, x)
    } else {
        let (r, x1) = ua_spec(s, x);
        if r is Some {
            (r, x1)
        } else {
            tua_spec(s, (n - 1) as nat, x1)
        }
    }
}

/// Undo a defender move: try a king move, a capture by the king and an
/// interposition, keep those the statistics accept, and pick at random
/// among those with the lowest score.
#[verifier::rlimit(40)]
fn unwind_defender_move(rng: &mut Rng, state: &State) -> (r: Option<State>)
    requires
        state.wf(),
    ensures
        r matches Some(t) ==> defender_unwound(t, *state),
        (r, final(rng)@) == udm_spec(*state, old(rng)@),
{
    proof {
        reveal(udm_spec);
    }
    let ghost x0 = rng@;
    let dk_pos = match state.king_pos(Owner::Defender) {
        Some(p) => p,
        None => {
            return None;
        },
    };
    let mut candidates: Vec<(u32, State)> = Vec::new();
    let ghost c0: Seq<(int, State)> = seq![];
    let r1 = unwind_defender_king_move(rng, state, dk_pos);
    if let Some(s) = r1 {
        if let Some(score) = accept_defender_unwind(&s) {
            candidates.push((score, s));
        }
    }
    let ghost c1 = ud_add(c0, r1);
    assert(cands_match(candidates@, c1));
    let r2 = unwind_defender_capture(rng, state, dk_pos);
    if let Some(s) = r2 {
        if let Some(score) = accept_defender_unwind(&s) {
            candidates.push((score, s));
        }
    }
    let ghost c2 = ud_add(c1, r2);
    assert(cands_match(candidates@, c2));
    let r3 = unwind_defender_interpose(rng, state, dk_pos);
    if let Some(s) = r3 {
        if let Some(score) = accept_defender_unwind(&s) {
            candidates.push((score, s));
        }
    }
    let ghost c = ud_add(c2, r3);
    assert(cands_match(candidates@, c));
    let ghost x3 = rng@;
    if candidates.len() == 0 {
        return None;
    }
    let mut best_score = candidates[0].0;
    let mut i: usize = 1;
    while i < candidates.len()
        invariant
            1 <= i <= candidates@.len(),
            cands_match(candidates@, c),
            best_score as int == min_score(c, i as nat),
        decreases candidates.len() - i,
    {
        if candidates[i].0 < best_score {
            best_score = candidates[i].0;
        }
        i = i + 1;
    }
    let mut best: Vec<usize> = Vec::new();
    let mut i: usize = 0;
    while i < candidates.len()
        invariant
            i <= candidates@.len(),
            forall|q: int| 0 <= q < best@.len() ==> #[trigger] best@[q] < candidates@.len(),
            cands_match(candidates@, c),
            best_score as int == min_score(c, c.len()),
            best_at(c, min_score(c, c.len()), 0, seq![]) == best_at(c, min_score(c, c.len()), i as nat, best@),
        decreases candidates.len() - i,
    {
        if candidates[i].0 == best_score {
            best.push(i);
        }
        i = i + 1;
    }
    if best.len() == 0 {
        return None;
    }
    let pick_idx = (rng.next_u64() as usize) % best.len();
    let chosen = best[pick_idx];
    assert(chosen < candidates@.len());
    Some(candidates[chosen].1)
}

/// Every attacker hand count is at most `limit`.
pub open spec fn attacker_hand_le(s: State, limit: int) -> bool {
    forall|k: int| 0 <= k < 7 ==> #[trigger] s.hands.attacker@[k] <= limit
}

/// A position just before the attacker's last move: the attacker to move,
/// the defender's king where it was and not in check, at most one more
/// piece of each kind in the attacker's hand, the defender's hand unchanged.
pub open spec fn attacker_unwound(t: State, s: State) -> bool {
    &&& t.wf()
    &&& t.side_to_move == Owner::Attacker
    &&& !spec_in_check(t, Owner::Defender)
    &&& t.king_cache(Owner::Defender) == s.king_cache(Owner::Defender)
    &&& t.hands.defender == s.hands.defender
    &&& forall|k: int| 0 <= k < 7 ==> #[trigger] t.hands.attacker@[k] <= s.hands.attacker@[k] + 1
}

/// `t` is `s` one attacker move earlier: the attacker piece `bp` on square
/// `c` of `s` was dropped there from the hand (`f` is then `None`), or came
/// from the empty square `f` as piece `u`, which is `bp` or, for a move that
/// promoted, its unpromoted form.
pub open spec fn back_from(t: State, s: State, c: Pos, bp: BoardPiece, f: Option<Pos>, u: PieceType) -> bool {
    &&& c.spec_valid()
    &&& s.at(c.spec_idx()) == Some(bp)
    &&& bp.owner == Owner::Attacker
    &&& match f {
        None => {
            &&& u == bp.piece_type
            &&& bp.piece_type.spec_is_hand_type()
            &&& t.board@ == s.board@.update(c.spec_idx(), None)
            &&& t.hands == s.hands.with_count(Owner::Attacker, u, (s.hands.count(Owner::Attacker, u) + 1) as u8)
        },
        Some(fp) => {
            &&& fp.spec_valid()
            &&& fp != c
            &&& s.at(fp.spec_idx()) is None
            &&& (u == bp.piece_type || u == bp.piece_type.spec_unpromote())
            &&& t.board@ == s.board@.update(c.spec_idx(), None).update(
                fp.spec_idx(),
                Some(BoardPiece { owner: Owner::Attacker, piece_type: u }),
            )
            &&& t.hands == s.hands
        },
    }
}

/// An empty square on the board, not the defender king's, from which an
/// attacker piece can have come.
pub open spec fn origin_ok(s: State, dk: Pos, c: (Pos, bool)) -> bool {
    c.0.spec_valid() && c.0 != dk && s.at(c.0.spec_idx()) is None
}

/// The squares `ck - d` for the steps `ds[j..]` that are on the board, empty
/// and not the defender king's, appended (as non-promoting origins) to `acc`.
pub open spec fn ua_steps(s: State, ds: Seq<(i8, i8)>, ck: Pos, dk: Pos, j: nat, acc: Seq<(Pos, bool)>) -> Seq<(Pos, bool)>
    decreases ds.len() - j,
{
    if j >= ds.len() {
        acc
    } else {
        let p = Pos { x: (ck.x - ds[j as int].0) as i8, y: (ck.y - ds[j as int].1) as i8 };
        ua_steps(s, ds, ck, dk, j + 1, if p.spec_valid() && s.at(p.spec_idx()) is None && !(p.x == dk.x && p.y == dk.y) {
            acc.push((p, false))
        } else {
            acc
        })
    }
}

/// The promoting origins among the steps `ds[j..]`: as `ua_steps`, kept only
/// when the origin or `ck` lies in the attacker's promotion zone.
pub open spec fn ua_promo_steps(s: State, ds: Seq<(i8, i8)>, ck: Pos, dk: Pos, j: nat, acc: Seq<(Pos, bool)>) -> Seq<(Pos, bool)>
    decreases ds.len() - j,
{
    if j >= ds.len() {
        acc
    } else {
        let p = Pos { x: (ck.x - ds[j as int].0) as i8, y: (ck.y - ds[j as int].1) as i8 };
        ua_promo_steps(s, ds, ck, dk, j + 1, if p.spec_valid() && s.at(p.spec_idx()) is None && !(p.x == dk.x && p.y == dk.y)
            && (spec_promotion_zone(Owner::Attacker, p.y as int) || spec_promotion_zone(Owner::Attacker, ck.y as int)) {
            acc.push((p, true))
        } else {
            acc
        })
    }
}

/// Origins along a line from `(x, y)` on in steps of `(-dx, -dy)`, at most
/// `left` of them, while on the board, empty and not the defender king's;
/// with `promo` only those that make the move promote, marked so.
pub open spec fn ua_ray(s: State, ck: Pos, dk: Pos, dx: int, dy: int, x: int, y: int, left: nat, promo: bool, acc: Seq<(Pos, bool)>) -> Seq<(Pos, bool)>
    decreases left,
{
    let p = Pos { x: x as i8, y: y as i8 };
    if left == 0 || !(-128 <= x <= 127 && -128 <= y <= 127) || !p.spec_valid() || (p.x == dk.x && p.y == dk.y) || s.at(
        p.spec_idx(),
    ) is Some {
        acc
    } else {
        ua_ray(s, ck, dk, dx, dy, x - dx, y - dy, (left - 1) as nat, promo, if !promo || spec_promotion_zone(
            Owner::Attacker,
            p.y as int,
        ) || spec_promotion_zone(Owner::Attacker, ck.y as int) {
            acc.push((p, promo))
        } else {
            acc
        })
    }
}

pub open spec fn ua_slides(s: State, ds: Seq<(i8, i8)>, ck: Pos, dk: Pos, j: nat, promo: bool, acc: Seq<(Pos, bool)>) -> Seq<(Pos, bool)>
    decreases ds.len() - j,
{
    if j >= ds.len() {
        acc
    } else {
        let d = ds[j as int];
        ua_slides(s, ds, ck, dk, j + 1, promo, ua_ray(s, ck, dk, d.0 as int, d.1 as int, ck.x - d.0, ck.y - d.1, 10, promo, acc))
    }
}

/// The squares a checker of kind `t` on `ck` can have come from, with
/// whether the move promoted: its steps, extra steps and slides, and for a
/// promoted piece the moves of its unpromoted form that could promote.
pub open spec fn ua_candidates(s: State, t: PieceType, ck: Pos, dk: Pos) -> Seq<(Pos, bool)> {
    let a = ua_steps(s, spec_step_moves(t), ck, dk, 0, seq![]);
    let b = ua_steps(s, spec_extra_steps(t), ck, dk, 0, a);
    let c = ua_slides(s, spec_slide_dirs(t), ck, dk, 0, false, b);
    if t.spec_is_promoted() {
        let base = t.spec_unpromote();
        let d = ua_promo_steps(s, spec_step_moves(base), ck, dk, 0, c);
        ua_slides(s, spec_slide_dirs(base), ck, dk, 0, true, d)
    } else {
        c
    }
}

/// What `unwind_attacker_move` gives for position `s` and generator state
/// `x0`: the result and the generator state afterwards. A checker is drawn;
/// with a draw of three tenths it goes back to the hand (not a promoted
/// piece), otherwise back to a drawn origin (unpromoted when the move
/// promoted); refused when it cannot stand there or the defender is still
/// in check.
#[verifier::opaque]
pub open spec fn ua_spec(s: State, x0: u64) -> (Option<State>, u64) {
    match s.king_cache(Owner::Defender) {
        None => (None, x0),
        Some(dk) => {
            let cks = spec_checkers(s, Owner::Defender);
            if cks.len() == 0 {
                (None, x0)
            } else {
                let ck = cks[pick_at(x0, cks.len())];
                let x1 = crate::zobrist::xorshift64(x0);
                let x2 = crate::zobrist::xorshift64(x1);
                let t = ck.1.piece_type;
                if drawn(x1, 300000) {
                    if t.spec_is_promoted() || !t.spec_is_hand_type() {
                        (None, x2)
                    } else {
                        let st1 = spec_set(s, ck.0, None);
                        let st2 = State {
                            hands: st1.hands.with_count(Owner::Attacker, t, (st1.hands.count(Owner::Attacker, t) + 1) as u8),
                            side_to_move: Owner::Attacker,
                            ..st1
                        };
                        if spec_in_check(st2, Owner::Defender) {
                            (None, x2)
                        } else {
                            (Some(st2), x2)
                        }
                    }
                } else {
                    let cands = ua_candidates(s, t, ck.0, dk);
                    if cands.len() == 0 {
                        (None, x2)
                    } else {
                        let (sh, x3) = crate::rng::shuffle_spec(cands, x2);
                        let f = sh[0];
                        let u = if f.1 { t.spec_unpromote() } else { t };
                        if crate::movegen::spec_no_go(Owner::Attacker, u, f.0.y as int) {
                            (None, x3)
                        } else {
                            let st2 = State {
                                side_to_move: Owner::Attacker,
                                ..spec_set(spec_set(s, ck.0, None), f.0, Some(BoardPiece { owner: Owner::Attacker, piece_type: u }))
                            };
                            if spec_in_check(st2, Owner::Defender) {
                                (None, x3)
                            } else {
                                (Some(st2), x3)
                            }
                        }
                    }
                }
            }
        },
    }
}

/// Undo the attacker's last move: the checking piece goes back to the hand
/// (a drop) or to a square it can have come from (perhaps unpromoted).
fn unwind_attacker_move(rng: &mut Rng, state: &State) -> (r: Option<State>)
    requires
        state.wf(),
        attacker_hand_le(*state, 254),
    ensures
        r matches Some(t) ==> attacker_unwound(t, *state) && exists|c: Pos, bp: BoardPiece, f: Option<Pos>, u: PieceType|
            #[trigger] back_from(t, *state, c, bp, f, u),
        (r, final(rng)@) == ua_spec(*state, old(rng)@),
{
    proof {
        reveal(ua_spec);
    }
    let dk_pos = match state.king_pos(Owner::Defender) {
        Some(p) => p,
        None => {
            return None;
        },
    };
    let checkers = find_checkers(state, Owner::Defender);
    if checkers.len() == 0 {
        return None;
    }
    proof {
        lemma_checkers_ok(*state, Owner::Defender);
    }
    let ghost x0 = rng@;
    let (ck_pos, ck_piece) = *rng.pick(checkers.as_slice());
    proof {
        let q = ((crate::zobrist::xorshift64(x0) as usize) as nat % checkers@.len()) as int;
        assert(checker_ok(*state, dk_pos, Owner::Attacker, checkers@[q]));
    }
    proof {
        let q = ((crate::zobrist::xorshift64(x0) as usize) as nat % checkers@.len()) as int;
        assert((ck_pos, ck_piece) == checkers@[q]);
        assert(q == pick_at(x0, spec_checkers(*state, Owner::Defender).len()));
    }
    let ghost x1 = rng@;
    if chance(rng, 300000) {
        if ck_piece.piece_type.is_promoted() {
            return None;
        }
        if !ck_piece.piece_type.is_hand_type() {
            return None;
        }
        let mut new_state = *state;
        proof {
            lemma_set_wf(new_state, ck_pos, None);
            crate::pieces::lemma_hands_with_count(state.hands, Owner::Attacker, ck_piece.piece_type, 0, Owner::Attacker, ck_piece.piece_type);
            assert(state.hands.count(Owner::Attacker, ck_piece.piece_type) == state.hands.attacker@[crate::pieces::spec_hand_idx(ck_piece.piece_type)]);
        }
        new_state.set(ck_pos, None);
        let ghost cleared = new_state;
        new_state.hands.add(Owner::Attacker, ck_piece.piece_type, 1);
        new_state.side_to_move = Owner::Attacker;
        proof {
            lemma_wf_same(cleared, new_state);
            let t = ck_piece.piece_type;
            assert forall|k: int| 0 <= k < 7 implies #[trigger] new_state.hands.attacker@[k] <= state.hands.attacker@[k] + 1 by {
                if k != crate::pieces::spec_hand_idx(t) {
                    assert(new_state.hands.attacker@[k] == state.hands.attacker@[k]);
                }
            }
        }
        if is_in_check(&new_state, Owner::Defender) {
            return None;
        }
        proof {
            assert(new_state.board@ == state.board@.update(ck_pos.spec_idx(), None));
            assert(back_from(new_state, *state, ck_pos, ck_piece, None, ck_piece.piece_type));
        }
        return Some(new_state);
    }
    let t = ck_piece.piece_type;
    let ghost x2 = rng@;
    let mut from_candidates: Vec<(Pos, bool)> = Vec::new();
    proof {
        lemma_dirs_small(t);
    }
    let steps = step_moves(t);
    let mut j: usize = 0;
    while j < steps.len()
        invariant
            j <= steps@.len(),
            small_dirs(steps@),
            ck_pos.spec_valid(),
            forall|q: int| 0 <= q < from_candidates@.len() ==> #[trigger] origin_ok(*state, dk_pos, from_candidates@[q]),
            steps@ == spec_step_moves(t),
            ua_steps(*state, steps@, ck_pos, dk_pos, 0, seq![]) == ua_steps(*state, steps@, ck_pos, dk_pos, j as nat, from_candidates@),
        decreases steps.len() - j,
    {
        let (dx, dy) = steps[j];
        assert(-2 <= steps@[j as int].0 <= 2 && -2 <= steps@[j as int].1 <= 2);
        let (tx, ty) = transform_dir(Owner::Attacker, dx, dy);
        let from = Pos::new(ck_pos.x - tx, ck_pos.y - ty);
        if empty_square(state, from) && !(from.x == dk_pos.x && from.y == dk_pos.y) {
            from_candidates.push((from, false));
        }
        j = j + 1;
    }
    let ghost ca = from_candidates@;
    let extra = extra_steps(t);
    let mut j: usize = 0;
    while j < extra.len()
        invariant
            j <= extra@.len(),
            small_dirs(extra@),
            ck_pos.spec_valid(),
            forall|q: int| 0 <= q < from_candidates@.len() ==> #[trigger] origin_ok(*state, dk_pos, from_candidates@[q]),
            extra@ == spec_extra_steps(t),
            ua_steps(*state, extra@, ck_pos, dk_pos, 0, ca) == ua_steps(*state, extra@, ck_pos, dk_pos, j as nat, from_candidates@),
        decreases extra.len() - j,
    {
        let (dx, dy) = extra[j];
        assert(-2 <= extra@[j as int].0 <= 2 && -2 <= extra@[j as int].1 <= 2);
        let (tx, ty) = transform_dir(Owner::Attacker, dx, dy);
        let from = Pos::new(ck_pos.x - tx, ck_pos.y - ty);
        if empty_square(state, from) && !(from.x == dk_pos.x && from.y == dk_pos.y) {
            from_candidates.push((from, false));
        }
        j = j + 1;
    }
    let ghost cb = from_candidates@;
    let slides = slide_dirs(t);
    let mut j: usize = 0;
    while j < slides.len()
        invariant
            j <= slides@.len(),
            small_dirs(slides@),
            ck_pos.spec_valid(),
            forall|q: int| 0 <= q < from_candidates@.len() ==> #[trigger] origin_ok(*state, dk_pos, from_candidates@[q]),
            slides@ == spec_slide_dirs(t),
            ua_slides(*state, slides@, ck_pos, dk_pos, 0, false, cb) == ua_slides(*state, slides@, ck_pos, dk_pos, j as nat, false, from_candidates@),
        decreases slides.len() - j,
    {
        let (dx, dy) = slides[j];
        assert(-2 <= slides@[j as int].0 <= 2 && -2 <= slides@[j as int].1 <= 2);
        let (tx, ty) = transform_dir(Owner::Attacker, dx, dy);
        let mut x = ck_pos.x - tx;
        let mut y = ck_pos.y - ty;
        let ghost acc0 = from_candidates@;
        // A ray leaves the board within nine steps, so the count never runs out.
        let mut steps_left: u32 = 10;
        while Pos::new(x, y).is_valid() && steps_left > 0
            invariant
                -2 <= tx <= 2,
                -2 <= ty <= 2,
                -30 <= x <= 40,
                -30 <= y <= 40,
                steps_left <= 10,
                forall|q: int| 0 <= q < from_candidates@.len() ==> #[trigger] origin_ok(*state, dk_pos, from_candidates@[q]),
                tx == dx && ty == dy,
                ua_ray(*state, ck_pos, dk_pos, dx as int, dy as int, ck_pos.x - dx, ck_pos.y - dy, 10, false, acc0)
                    == ua_ray(*state, ck_pos, dk_pos, dx as int, dy as int, x as int, y as int, steps_left as nat, false, from_candidates@),
            ensures
                ua_ray(*state, ck_pos, dk_pos, dx as int, dy as int, x as int, y as int, steps_left as nat, false, from_candidates@) == from_candidates@,
            decreases steps_left,
        {
            let p = Pos::new(x, y);
            if p.x == dk_pos.x && p.y == dk_pos.y {
                break;
            }
            if state.get(p).is_some() {
                break;
            }
            from_candidates.push((p, false));
            x = x - tx;
            y = y - ty;
            steps_left = steps_left - 1;
        }
        j = j + 1;
    }
    let ghost cc = from_candidates@;
    if t.is_promoted() {
        let base = t.unpromote();
        proof {
            lemma_dirs_small(base);
        }
        let bsteps = step_moves(base);
        let mut j: usize = 0;
        while j < bsteps.len()
            invariant
                j <= bsteps@.len(),
                small_dirs(bsteps@),
                ck_pos.spec_valid(),
                forall|q: int| 0 <= q < from_candidates@.len() ==> #[trigger] origin_ok(*state, dk_pos, from_candidates@[q]),
                bsteps@ == spec_step_moves(base),
                ua_promo_steps(*state, bsteps@, ck_pos, dk_pos, 0, cc) == ua_promo_steps(*state, bsteps@, ck_pos, dk_pos, j as nat, from_candidates@),
            decreases bsteps.len() - j,
        {
            let (dx, dy) = bsteps[j];
            assert(-2 <= bsteps@[j as int].0 <= 2 && -2 <= bsteps@[j as int].1 <= 2);
            let (tx, ty) = transform_dir(Owner::Attacker, dx, dy);
            let from = Pos::new(ck_pos.x - tx, ck_pos.y - ty);
            if empty_square(state, from) && !(from.x == dk_pos.x && from.y == dk_pos.y) {
                if promotion_zone(Owner::Attacker, from.y) || promotion_zone(Owner::Attacker, ck_pos.y) {
                    from_candidates.push((from, true));
                }
            }
            j = j + 1;
        }
        let ghost cd = from_candidates@;
        let bslides = slide_dirs(base);
        let mut j: usize = 0;
        while j < bslides.len()
            invariant
                j <= bslides@.len(),
                small_dirs(bslides@),
                ck_pos.spec_valid(),
                forall|q: int| 0 <= q < from_candidates@.len() ==> #[trigger] origin_ok(*state, dk_pos, from_candidates@[q]),
                bslides@ == spec_slide_dirs(base),
                ua_slides(*state, bslides@, ck_pos, dk_pos, 0, true, cd) == ua_slides(*state, bslides@, ck_pos, dk_pos, j as nat, true, from_candidates@),
            decreases bslides.len() - j,
        {
            let (dx, dy) = bslides[j];
            assert(-2 <= bslides@[j as int].0 <= 2 && -2 <= bslides@[j as int].1 <= 2);
            let (tx, ty) = transform_dir(Owner::Attacker, dx, dy);
            let mut x = ck_pos.x - tx;
            let mut y = ck_pos.y - ty;
            let ghost acc0 = from_candidates@;
            // A ray leaves the board within nine steps, so the count never runs out.
            let mut steps_left: u32 = 10;
            while Pos::new(x, y).is_valid() && steps_left > 0
                invariant
                    -2 <= tx <= 2,
                    -2 <= ty <= 2,
                    -30 <= x <= 40,
                    -30 <= y <= 40,
                    steps_left <= 10,
                    ck_pos.spec_valid(),
                    forall|q: int| 0 <= q < from_candidates@.len() ==> #[trigger] origin_ok(*state, dk_pos, from_candidates@[q]),
                    tx == dx && ty == dy,
                    ua_ray(*state, ck_pos, dk_pos, dx as int, dy as int, ck_pos.x - dx, ck_pos.y - dy, 10, true, acc0)
                        == ua_ray(*state, ck_pos, dk_pos, dx as int, dy as int, x as int, y as int, steps_left as nat, true, from_candidates@),
                ensures
                    ua_ray(*state, ck_pos, dk_pos, dx as int, dy as int, x as int, y as int, steps_left as nat, true, from_candidates@) == from_candidates@,
                decreases steps_left,
            {
                let p = Pos::new(x, y);
                if p.x == dk_pos.x && p.y == dk_pos.y {
                    break;
                }
                if state.get(p).is_some() {
                    break;
                }
                if promotion_zone(Owner::Attacker, p.y) || promotion_zone(Owner::Attacker, ck_pos.y) {
                    from_candidates.push((p, true));
                }
                x = x - tx;
                y = y - ty;
                steps_left = steps_left - 1;
            }
            j = j + 1;
        }
    }
    assert(from_candidates@ == ua_candidates(*state, t, ck_pos, dk_pos));
    if from_candidates.len() == 0 {
        return None;
    }
    let ghost before = from_candidates@;
    let ghost x1 = rng@;
    rng.shuffle(&mut from_candidates);
    proof {
        lemma_shuffle_elements(before, x1);
        assert(before.contains(from_candidates@[0]));
        let q = choose|q: int| 0 <= q < before.len() && before[q] == from_candidates@[0];
        assert(origin_ok(*state, dk_pos, before[q]));
    }
    let (from_pos, was_promotion) = from_candidates[0];
    let mut new_state = *state;
    proof {
        lemma_set_wf(new_state, ck_pos, None);
    }
    new_state.set(ck_pos, None);
    let piece_type_at_from = if was_promotion {
        ck_piece.piece_type.unpromote()
    } else {
        ck_piece.piece_type
    };
    if !attacker_can_stand(piece_type_at_from, from_pos.y) {
        return None;
    }
    proof {
        if ck_pos.spec_idx() == from_pos.spec_idx() {
            crate::state::lemma_idx_injective(ck_pos, from_pos);
        }
        lemma_set_wf(new_state, from_pos, Some(BoardPiece { owner: Owner::Attacker, piece_type: piece_type_at_from }));
    }
    new_state.set(from_pos, Some(BoardPiece { owner: Owner::Attacker, piece_type: piece_type_at_from }));
    let ghost placed_state = new_state;
    new_state.side_to_move = Owner::Attacker;
    proof {
        lemma_wf_same(placed_state, new_state);
    }
    if is_in_check(&new_state, Owner::Defender) {
        return None;
    }
    proof {
        assert(new_state.board@ == state.board@.update(ck_pos.spec_idx(), None).update(
            from_pos.spec_idx(),
            Some(BoardPiece { owner: Owner::Attacker, piece_type: piece_type_at_from }),
        ));
        assert(back_from(new_state, *state, ck_pos, ck_piece, Some(from_pos), piece_type_at_from));
    }
    Some(new_state)
}

fn try_unwind_attacker(rng: &mut Rng, state: &State, max_attempts: u32) -> (r: Option<State>)
    requires
        state.wf(),
        attacker_hand_le(*state, 254),
    ensures
        (r, final(rng)@) == tua_spec(*state, max_attempts as nat, old(rng)@),
        r matches Some(t) ==> attacker_unwound(t, *state),
{
    proof {
        reveal(tua_spec);
    }
    let mut i: u32 = 0;
    while i < max_attempts
        invariant
            state.wf(),
            attacker_hand_le(*state, 254),
            tua_spec(*state, max_attempts as nat, old(rng)@) == tua_spec(*state, (max_attempts - i) as nat, rng@),
            i <= max_attempts,
        decreases max_attempts - i,
    {
        proof {
            reveal(tua_spec);
        }
        if let Some(s) = unwind_attacker_move(rng, state) {
            return Some(s);
        }
        i = i + 1;
    }
    None
}

fn try_unwind_defender(rng: &mut Rng, state: &State, max_attempts: u32) -> (r: Option<State>)
    requires
        state.wf(),
    ensures
        (r, final(rng)@) == tud_spec(*state, max_attempts as nat, old(rng)@),
        r matches Some(t) ==> defender_unwound(t, *state),
{
    proof {
        reveal(tud_spec);
    }
    let mut i: u32 = 0;
    while i < max_attempts
        invariant
            state.wf(),
            tud_spec(*state, max_attempts as nat, old(rng)@) == tud_spec(*state, (max_attempts - i) as nat, rng@),
            i <= max_attempts,
        decreases max_attempts - i,
    {
        proof {
            reveal(tud_spec);
        }
        if let Some(s) = unwind_defender_move(rng, state) {
            return Some(s);
        }
        i = i + 1;
    }
    None
}

/// Unwinding `left` more pairs of moves (defender, then attacker) from `cur`,
/// twenty tries each: the position reached, or nothing when a step fails.
#[verifier::opaque]
pub open spec fn tec_pairs(cur: State, left: nat, x: u64) -> (Option<State>, u64)
    decreases left,
{
    if left == 0 {
        (Some(cur), x)
    } else {
        let (d, x1) = tud_spec(cur, 20, x);
        match d {
            None => (None, x1),
            Some(def) => {
                let (a, x2) = tua_spec(def, 20, x1);
                match a {
                    None => (None, x2),
                    Some(at) => tec_pairs(at, (left - 1) as nat, x2),
                }
            },
        }
    }
}

/// Up to `attempts` attempts of `tec_pairs` from `start`.
#[verifier::opaque]
pub open spec fn tec_spec(start: State, total: nat, attempts: nat, x: u64) -> (Option<State>, u64)
    decreases attempts,
{
    if attempts == 0 {
        (None, x)
    } else {
        let (r, x1) = tec_pairs(start, total, x);
        if r is Some {
            (r, x1)
        } else {
            tec_spec(start, total, (attempts - 1) as nat, x1)
        }
    }
}

/// Unwind `total_pairs` pairs of moves (defender, then attacker), starting
/// again from `start` when a step fails, at most 50 times.
#[verifier::rlimit(80)]
fn try_extend_chain(rng: &mut Rng, start: &State, total_pairs: u32) -> (r: Option<State>)
    requires
        start.wf(),
        start.king_cache(Owner::Defender) is Some,
        attacker_hand_le(*start, 254 - total_pairs),
        total_pairs <= 254,
    ensures
        r matches Some(t) ==> t.wf() && t.king_cache(Owner::Defender) is Some,
        (r, final(rng)@) == tec_spec(*start, total_pairs as nat, 50, old(rng)@),
{
    proof {
        reveal(tec_spec);
        reveal(tec_pairs);
    }
    let mut attempt: u32 = 0;
    while attempt < 50
        invariant
            start.wf(),
            start.king_cache(Owner::Defender) is Some,
            attacker_hand_le(*start, 254 - total_pairs),
            total_pairs <= 254,
            attempt <= 50,
            tec_spec(*start, total_pairs as nat, 50, old(rng)@) == tec_spec(*start, total_pairs as nat, (50 - attempt) as nat, rng@),
        decreases 50 - attempt,
    {
        proof {
            reveal(tec_spec);
            reveal(tec_pairs);
        }
        let mut current = *start;
        let mut p: u32 = 0;
        let mut failed = false;
        let ghost xa = rng@;
        while p < total_pairs && !failed
            invariant
                p <= total_pairs,
                total_pairs <= 254,
                current.wf(),
                current.king_cache(Owner::Defender) is Some,
                attacker_hand_le(current, 254 - total_pairs + p),
                !failed ==> tec_pairs(*start, total_pairs as nat, xa) == tec_pairs(current, (total_pairs - p) as nat, rng@),
                failed ==> tec_pairs(*start, total_pairs as nat, xa) == (None::<State>, rng@),
            decreases total_pairs - p, if failed { 0int } else { 1int },
        {
            proof {
                reveal(tec_spec);
                reveal(tec_pairs);
            }
            match try_unwind_defender(rng, &current, 20) {
                None => {
                    failed = true;
                },
                Some(def) => {
                    assert(attacker_hand_le(def, 254 - total_pairs + p)) by {
                        assert forall|k: int| 0 <= k < 7 implies #[trigger] def.hands.attacker@[k] <= 254 - total_pairs + p by {
                            assert(def.hands.attacker@[k] == current.hands.attacker@[k]);
                        }
                    }
                    match try_unwind_attacker(rng, &def, 20) {
                        None => {
                            failed = true;
                        },
                        Some(atk) => {
                            assert(attacker_hand_le(atk, 254 - total_pairs + p + 1)) by {
                                assert forall|k: int| 0 <= k < 7 implies #[trigger] atk.hands.attacker@[k] <= 254 - total_pairs + p + 1 by {
                                    assert(def.hands.attacker@[k] <= 254 - total_pairs + p);
                                }
                            }
                            current = atk;
                            p = p + 1;
                        },
                    }
                },
            }
        }
        if !failed {
            return Some(current);
        }
        attempt = attempt + 1;
    }
    None
}

/// A candidate problem: the attacker to move, every piece on its own square
/// of the board, and the defender's king among them.
pub open spec fn candidate_ok(d: InitialData) -> bool {
    &&& d.side_to_move == Owner::Attacker
    &&& forall|j: int| 0 <= j < d.pieces@.len() ==> #[trigger] piece_pos(d.pieces@[j]).spec_valid()
    &&& forall|i: int, j: int| 0 <= i < j < d.pieces@.len() ==> piece_pos(#[trigger] d.pieces@[i]) != piece_pos(
        #[trigger] d.pieces@[j],
    )
    &&& exists|j: int| 0 <= j < d.pieces@.len() && #[trigger] d.pieces@[j] == PieceData {
        x: d.pieces@[j].x,
        y: d.pieces@[j].y,
        owner: Owner::Defender,
        piece_type: PieceType::K,
    }
}

/// Some kind has more pieces in use than a full set holds.
pub open spec fn excess(d: InitialData) -> bool {
    exists|k: int| 0 <= k < 7 && #[trigger] used_count(d, k) > max_count(k)
}

/// The initial position of a position with the attacker to move and the
/// defender's king on the board is a candidate problem.
proof fn lemma_from_state_candidate(s: State, d: InitialData)
    requires
        s.wf(),
        s.side_to_move == Owner::Attacker,
        s.king_cache(Owner::Defender) is Some,
        d.pieces@ == board_pieces(s, 81),
        d.side_to_move == s.side_to_move,
    ensures
        candidate_ok(d),
        d.pieces@.len() <= 81,
{
    lemma_board_pieces(s, 81);
    let ps = d.pieces@;
    assert forall|i: int, j: int| 0 <= i < j < ps.len() implies piece_pos(#[trigger] ps[i]) != piece_pos(#[trigger] ps[j]) by {
        assert(piece_pos(ps[i]).spec_idx() < piece_pos(ps[j]).spec_idx());
    }
    let kp = s.king_cache(Owner::Defender).unwrap();
    crate::state::lemma_pos_of_idx(kp);
    let i = kp.spec_idx();
    assert(s.at(i) is Some);
    let e = PieceData { x: crate::state::pos_of(i).x, y: crate::state::pos_of(i).y, owner: Owner::Defender, piece_type: PieceType::K };
    assert(ps.contains(e));
    let q = choose|q: int| 0 <= q < ps.len() && ps[q] == e;
    assert(ps[q] == PieceData { x: ps[q].x, y: ps[q].y, owner: Owner::Defender, piece_type: PieceType::K });
}

/// `d` is the problem `InitialData::from_state` makes of position `st`.
pub open spec fn initial_of(d: InitialData, st: State) -> bool {
    &&& d.pieces@ == board_pieces(st, 81)
    &&& hc_seq(d.hands.attacker) == st.hands.attacker@
    &&& hc_seq(d.hands.defender) == st.hands.defender@
    &&& d.side_to_move == st.side_to_move
}

/// What `backward_candidate` builds in `n` more attempts from generator
/// state `x` with `pairs` pairs of moves to unwind: a mated position, the
/// attacker's last move unwound (thirty tries), then the pairs before it
/// (`tec_spec`, fifty attempts); the position reached, the attacker to move.
pub open spec fn bc_spec(pairs: nat, n: nat, x: u64) -> Option<State>
    decreases n,
{
    if n == 0 {
        None
    } else {
        let (m, x1) = gm_spec(x);
        match m {
            None => bc_spec(pairs, (n - 1) as nat, x1),
            Some(mated) => {
                let (i, x2) = tua_spec(mated, 30, x1);
                match i {
                    None => bc_spec(pairs, (n - 1) as nat, x2),
                    Some(init) => {
                        let (r, x3) = tec_spec(init, pairs, 50, x2);
                        match r {
                            Some(res) => Some(State { side_to_move: Owner::Attacker, ..res }),
                            None => bc_spec(pairs, (n - 1) as nat, x3),
                        }
                    },
                }
            },
        }
    }
}

/// A candidate problem of `mate_length` plies built backwards from a random
/// mated position: the attacker's last move unwound, then the pairs of
/// moves before it (up to 50 attempts).
#[verifier::rlimit(80)]
pub fn backward_candidate(rng_seed: u64, mate_length: u32) -> (r: Option<InitialData>)
    requires
        mate_length <= 500,
    ensures
        r matches Some(d) ==> candidate_ok(d),
        match (r, bc_spec((if mate_length >= 1 { (mate_length - 1) / 2 } else { 0 }) as nat, 50, crate::rng::seed_state(rng_seed))) {
            (None, None) => true,
            (Some(d), Some(st)) => initial_of(d, st),
            _ => false,
        },
{
    let mut rng = Rng::new(rng_seed);
    let additional_pairs = mate_length.saturating_sub(1) / 2;
    let ghost pairs = additional_pairs as nat;
    assert(pairs == (if mate_length >= 1 { (mate_length - 1) / 2 } else { 0 }) as nat);
    let ghost xs0 = rng@;
    let mut attempt: u32 = 0;
    while attempt < 50
        invariant
            additional_pairs <= 250,
            pairs == additional_pairs as nat,
            attempt <= 50,
            bc_spec(pairs, 50, xs0) == bc_spec(pairs, (50 - attempt) as nat, rng@),
            xs0 == crate::rng::seed_state(rng_seed),
            pairs == (if mate_length >= 1 { (mate_length - 1) / 2 } else { 0 }) as nat,
        decreases 50 - attempt,
    {
        let ghost xi = rng@;
        let ghost n = (50 - attempt) as nat;
        attempt = attempt + 1;
        let mated = match generate_mated_position(&mut rng) {
            Some(s) => s,
            None => {
                continue;
            },
        };
        proof {
            assert(attacker_hand_le(mated, 0)) by {
                assert forall|k: int| 0 <= k < 7 implies #[trigger] mated.hands.attacker@[k] <= 0 by {
                    crate::state::lemma_hands_total_parts(mated.hands, k);
                }
            }
        }
        let initial = match try_unwind_attacker(&mut rng, &mated, 30) {
            Some(s) => s,
            None => {
                continue;
            },
        };
        assert(attacker_hand_le(initial, 254 - additional_pairs)) by {
            assert forall|k: int| 0 <= k < 7 implies #[trigger] initial.hands.attacker@[k] <= 254 - additional_pairs by {
                assert(mated.hands.attacker@[k] <= 0);
            }
        }
        let ghost x2 = rng@;
        let ext = try_extend_chain(&mut rng, &initial, additional_pairs);
        if let Some(result) = ext {
            let mut result = result;
            let ghost before = result;
            result.side_to_move = Owner::Attacker;
            proof {
                lemma_wf_same(before, result);
            }
            assert(result == State { side_to_move: Owner::Attacker, ..before });
            let d = InitialData::from_state(&result);
            proof {
                lemma_from_state_candidate(result, d);
                assert(n >= 1);
                assert(tec_spec(initial, pairs, 50, x2).0 == Some(before));
                assert(bc_spec(pairs, n, xi) == Some(result));
                assert(initial_of(d, result));
            }
            return Some(d);
        }
    }
    None
}

/// `c` is the position of problem `d` (as `InitialData::to_state` builds it)
/// with the attacker to move.
pub open spec fn start_of(d: InitialData, c: State) -> bool {
    &&& forall|i: int| 0 <= i < 81 ==> #[trigger] c.at(i) == placed(d.pieces@, d.pieces@.len(), i)
    &&& c.hands.attacker@ == hc_seq(d.hands.attacker)
    &&& forall|k: int| 0 <= k < 7 ==> c.hands.defender@[k] == #[trigger] crate::initial::defender_count(d, k)
    &&& c.side_to_move == Owner::Attacker
    &&& c.zobrist_hash == crate::state::full_hash(State { side_to_move: d.side_to_move, ..c })
    &&& c.wf()
}

/// A problem has one starting position.
proof fn lemma_start_of_unique(d: InitialData, a: State, b: State)
    requires
        start_of(d, a),
        start_of(d, b),
    ensures
        a == b,
{
    assert(a.board@ =~= b.board@) by {
        assert forall|i: int| 0 <= i < 81 implies a.board@[i] == b.board@[i] by {
            assert(a.at(i) == b.at(i));
        }
    }
    assert(a.hands.attacker@ =~= b.hands.attacker@);
    assert(a.hands.defender@ =~= b.hands.defender@) by {
        assert forall|k: int| 0 <= k < 7 implies a.hands.defender@[k] == b.hands.defender@[k] by {
            assert(a.hands.defender@[k] == crate::initial::defender_count(d, k));
        }
    }
    assert forall|o: Owner| #[trigger] a.king_cache(o) == b.king_cache(o) by {
        match a.king_cache(o) {
            Some(p) => {
                crate::state::lemma_pos_of_idx(p);
                assert(b.at(p.spec_idx()) == a.at(p.spec_idx()));
            },
            None => {
                match b.king_cache(o) {
                    Some(q) => {
                        crate::state::lemma_pos_of_idx(q);
                        assert(a.at(q.spec_idx()) == b.at(q.spec_idx()));
                    },
                    None => {},
                }
            },
        }
    }
    assert(a.king_cache(Owner::Attacker) == b.king_cache(Owner::Attacker));
    assert(a.king_cache(Owner::Defender) == b.king_cache(Owner::Defender));
    assert(State { side_to_move: d.side_to_move, ..a }.board@ == State { side_to_move: d.side_to_move, ..b }.board@);
    assert(a.hands.attacker == b.hands.attacker) by {
        assert(a.hands.attacker@ == b.hands.attacker@);
    }
    assert(a.hands.defender == b.hands.defender) by {
        assert(a.hands.defender@ == b.hands.defender@);
    }
    assert(a.hands == b.hands);
    assert(a.board == b.board) by {
        assert(a.board@ == b.board@);
    }
    crate::state::lemma_state_ext(a, b);
}

/// The sum of the first `n` counts of a hand.
pub open spec fn hand_sum(h: Seq<u8>, n: nat) -> int
    decreases n,
{
    if n == 0 {
        0
    } else {
        hand_sum(h, (n - 1) as nat) + h[n - 1]
    }
}

/// The attacker's pressure on the king on `dk` from the first `n` pieces:
/// three for each attacker piece (not the king) within two squares in both
/// directions, one for each within four.
pub open spec fn pressure_on(ps: Seq<PieceData>, dk: Pos, n: nat) -> int
    decreases n,
{
    if n == 0 {
        0
    } else {
        let p = ps[n - 1];
        let dx = crate::attacks::abs(p.x - dk.x);
        let dy = crate::attacks::abs(p.y - dk.y);
        pressure_on(ps, dk, (n - 1) as nat) + if p.owner == Owner::Attacker && p.piece_type != PieceType::K {
            if dx <= 2 && dy <= 2 {
                3int
            } else if dx <= 4 && dy <= 4 {
                1int
            } else {
                0int
            }
        } else {
            0int
        }
    }
}

/// The scores of one extension: (pressure plus pieces in hand, empty squares
/// round the king, pieces, pieces in hand) and the position reached.
pub type EcCand = (int, int, int, int, State);

/// One try of `extend_candidate` from position `c` and generator state `x`:
/// a defender move unwound (fifty tries), then an attacker move (fifty
/// tries); refused with excess pieces or without the defender's king.
#[verifier::opaque]
pub open spec fn ec_try(c: State, x: u64) -> (Option<EcCand>, u64) {
    let (d, x1) = tud_spec(c, 50, x);
    match d {
        None => (None, x1),
        Some(def) => {
            let (a, x2) = tua_spec(def, 50, x1);
            match a {
                None => (None, x2),
                Some(at) => {
                    let res = State { side_to_move: Owner::Attacker, ..at };
                    let ps = board_pieces(res, 81);
                    if exists|k: int| 0 <= k < 7 && #[trigger] crate::initial::kind_count(ps, k, ps.len()) + res.hands.attacker@[k] > max_count(k) {
                        (None, x2)
                    } else {
                        match res.king_cache(Owner::Defender) {
                            None => (None, x2),
                            Some(dk) => {
                                let hand = hand_sum(res.hands.attacker@, 7);
                                (Some((pressure_on(ps, dk, ps.len()) + hand, empty_neighbors(res, dk, 8) as int, ps.len() as int, hand, res)), x2)
                            },
                        }
                    }
                },
            }
        },
    }
}

/// The best so far is kept over candidate `c`: higher pressure, then fewer
/// empty squares round the king, fewer pieces and fewer pieces in hand win.
pub open spec fn ec_keep_old(best: Option<EcCand>, c: EcCand) -> bool {
    match best {
        Some(b) => c.0 < b.0 || (c.0 == b.0 && c.1 > b.1) || (c.0 == b.0 && c.1 == b.1 && c.2 > b.2) || (c.0 == b.0
            && c.1 == b.1 && c.2 == b.2 && c.3 >= b.3),
        None => false,
    }
}

/// `left` more tries of `extend_candidate` (stopping once `done`), keeping
/// the best candidate; a candidate with pressure 8 or more, at most three
/// empty squares round the king, seven pieces and two in hand ends the search.
pub open spec fn ec_loop(c: State, left: nat, done: bool, best: Option<EcCand>, x: u64) -> Option<EcCand>
    decreases left,
{
    if left == 0 || done {
        best
    } else {
        let (t, x1) = ec_try(c, x);
        match t {
            None => ec_loop(c, (left - 1) as nat, done, best, x1),
            Some(cand) => if ec_keep_old(best, cand) {
                ec_loop(c, (left - 1) as nat, done, best, x1)
            } else {
                ec_loop(c, (left - 1) as nat, cand.0 >= 8 && cand.1 <= 3 && cand.2 <= 7 && cand.3 <= 2, Some(cand), x1)
            },
        }
    }
}

/// The exec best tuple holds the spec best candidate.
pub open spec fn best_match(b: Option<(u32, u32, u32, u32, InitialData)>, s: Option<EcCand>) -> bool {
    match (b, s) {
        (None, None) => true,
        (Some(e), Some(t)) => e.0 as int == t.0 && e.1 as int == t.1 && e.2 as int == t.2 && e.3 as int == t.3
            && initial_of(e.4, t.4),
        _ => false,
    }
}

fn sum_hand(h: &[u8; 7]) -> (r: u32)
    ensures
        r <= 7 * 255,
        r as int == hand_sum(h@, 7),
{
    let mut total: u32 = 0;
    let mut i: usize = 0;
    while i < 7
        invariant
            i <= 7,
            total <= i * 255,
            total as int == hand_sum(h@, i as nat),
        decreases 7 - i,
    {
        total = total + h[i] as u32;
        i = i + 1;
    }
    total
}

/// A candidate problem two plies longer than `source`: one defender move and
/// one attacker move unwound, twelve tries, keeping the best by attacker
/// pressure around the king, then fewer empty squares around it, fewer
/// pieces and fewer pieces in hand.
pub fn extend_candidate(rng_seed: u64, source: &InitialData) -> (r: Option<InitialData>)
    requires
        forall|i: int| 0 <= i < source.pieces@.len() ==> #[trigger] piece_pos(source.pieces@[i]).spec_valid(),
        source.pieces@.len() <= 0xFFFF_FFFF,
        kings_unique(source.pieces@),
        forall|k: int| 0 <= k < 7 ==> #[trigger] hc_seq(source.hands.attacker)[k] <= 254,
    ensures
        r matches Some(d) ==> candidate_ok(d) && !excess(d),
        forall|c: State| #[trigger] start_of(*source, c) ==> match (r, ec_loop(c, 12, false, None, crate::rng::seed_state(rng_seed))) {
            (None, None) => true,
            (Some(d), Some(b)) => initial_of(d, b.4),
            _ => false,
        },
{
    let mut rng = Rng::new(rng_seed);
    let mut best: Option<(u32, u32, u32, u32, InitialData)> = None;
    let mut attempt: u32 = 0;
    let mut done = false;
    let ghost mut bs: Option<EcCand> = None;
    while attempt < 12 && !done
        invariant
            forall|i: int| 0 <= i < source.pieces@.len() ==> #[trigger] piece_pos(source.pieces@[i]).spec_valid(),
            source.pieces@.len() <= 0xFFFF_FFFF,
            kings_unique(source.pieces@),
            forall|k: int| 0 <= k < 7 ==> #[trigger] hc_seq(source.hands.attacker)[k] <= 254,
            best matches Some(b) ==> candidate_ok(b.4) && !excess(b.4),
            attempt <= 12,
            best_match(best, bs),
            forall|c: State| #[trigger] start_of(*source, c) ==> ec_loop(c, 12, false, None, crate::rng::seed_state(rng_seed))
                == ec_loop(c, (12 - attempt) as nat, done, bs, rng@),
        decreases 12 - attempt, if done { 0int } else { 1int },
    {
        let ghost xi = rng@;
        let ghost n = (12 - attempt) as nat;
        attempt = attempt + 1;
        let mut current = source.to_state();
        let ghost fresh = current;
        current.side_to_move = Owner::Attacker;
        proof {
            lemma_wf_same(fresh, current);
            assert(fresh == State { side_to_move: source.side_to_move, ..current });
            assert(fresh.wf());
            assert(current.wf());
            assert(current.zobrist_hash == crate::state::full_hash(State { side_to_move: source.side_to_move, ..current }));
            assert forall|i: int| 0 <= i < 81 implies #[trigger] current.at(i) == placed(source.pieces@, source.pieces@.len(), i) by {
                assert(current.at(i) == fresh.at(i));
            }
            assert(current.hands.attacker@ == hc_seq(source.hands.attacker));
            assert(forall|k: int| 0 <= k < 7 ==> current.hands.defender@[k] == #[trigger] crate::initial::defender_count(*source, k));
            assert(start_of(*source, current));
            assert forall|c: State| #[trigger] start_of(*source, c) implies c == current by {
                lemma_start_of_unique(*source, c, current);
            }
            reveal(ec_try);
            assert(attacker_hand_le(current, 254)) by {
                assert forall|k: int| 0 <= k < 7 implies #[trigger] current.hands.attacker@[k] <= 254 by {
                    assert(current.hands.attacker@[k] == hc_seq(source.hands.attacker)[k]);
                }
            }
        }
        let ghost xd = rng@;
        let unwound_def = match try_unwind_defender(&mut rng, &current, 50) {
            Some(s) => s,
            None => {
                continue;
            },
        };
        assert(attacker_hand_le(unwound_def, 254)) by {
            assert forall|k: int| 0 <= k < 7 implies #[trigger] unwound_def.hands.attacker@[k] <= 254 by {
                assert(unwound_def.hands.attacker@[k] == current.hands.attacker@[k]);
            }
        }
        let ghost xa = rng@;
        assert(tud_spec(current, 50, xi) == (Some(unwound_def), xa));
        let mut result = match try_unwind_attacker(&mut rng, &unwound_def, 50) {
            Some(s) => s,
            None => {
                continue;
            },
        };
        let ghost before = result;
        assert(tua_spec(unwound_def, 50, xa) == (Some(before), rng@));
        result.side_to_move = Owner::Attacker;
        proof {
            lemma_wf_same(before, result);
        }
        let initial = InitialData::from_state(&result);
        proof {
            lemma_from_state_candidate(result, initial);
        }
        if initial.has_excess_pieces() {
            continue;
        }
        let dk = match result.king_pos(Owner::Defender) {
            Some(p) => p,
            None => {
                continue;
            },
        };
        proof {
            crate::state::lemma_pos_of_idx(dk);
        }
        let mut pressure: u32 = 0;
        let mut n: usize = 0;
        while n < initial.pieces.len()
            invariant
                n <= initial.pieces@.len(),
                initial.pieces@.len() <= 81,
                dk.spec_valid(),
                forall|j: int| 0 <= j < initial.pieces@.len() ==> #[trigger] piece_pos(initial.pieces@[j]).spec_valid(),
                pressure <= 3 * n,
                pressure as int == pressure_on(initial.pieces@, dk, n as nat),
            decreases initial.pieces.len() - n,
        {
            let p = initial.pieces[n];
            assert(piece_pos(initial.pieces@[n as int]).spec_valid());
            if p.owner == Owner::Attacker && p.piece_type != PieceType::K {
                let dx = abs8(p.x - dk.x);
                let dy = abs8(p.y - dk.y);
                if dx <= 2 && dy <= 2 {
                    pressure = pressure + 3;
                } else if dx <= 4 && dy <= 4 {
                    pressure = pressure + 1;
                }
            }
            n = n + 1;
        }
        let atk = initial.hands.attacker.to_array();
        let hand_count = sum_hand(&atk);
        pressure = pressure + hand_count;
        let kd = king_dirs_exec();
        let mut empty_around: u32 = 0;
        let mut i: usize = 0;
        while i < 8
            invariant
                i <= 8,
                kd@ == crate::attacks::king_dirs(),
                dk.spec_valid(),
                empty_around <= i,
                empty_around as int == empty_neighbors(result, dk, i as nat),
            decreases 8 - i,
        {
            proof {
                lemma_empty_neighbors_le(result, dk, i as nat);
            }
            let (dx, dy) = kd[i];
            if empty_square(&result, Pos::new(dk.x + dx, dk.y + dy)) {
                empty_around = empty_around + 1;
            }
            i = i + 1;
        }
        let piece_count = initial.pieces.len() as u32;
        let ghost cand: EcCand = (pressure as int, empty_around as int, piece_count as int, hand_count as int, result);
        proof {
            assert(atk@ == result.hands.attacker@);
            assert(initial.pieces@ == board_pieces(result, 81));
            assert(result == State { side_to_move: Owner::Attacker, ..before });
            let ps = board_pieces(result, 81);
            assert(forall|k: int| 0 <= k < 7 ==> used_count(initial, k) == crate::initial::kind_count(ps, k, ps.len()) + result.hands.attacker@[k]);
            assert(!exists|k: int| 0 <= k < 7 && #[trigger] crate::initial::kind_count(ps, k, ps.len()) + result.hands.attacker@[k] > max_count(k)) by {
                assert forall|k: int| 0 <= k < 7 implies !(#[trigger] crate::initial::kind_count(ps, k, ps.len()) + result.hands.attacker@[k] > max_count(k)) by {
                    assert(!(used_count(initial, k) > max_count(k)));
                }
            }
            assert(result.king_cache(Owner::Defender) == Some(dk));
            assert(hand_count as int == hand_sum(result.hands.attacker@, 7));
            assert(ec_try(current, xi) == (Some(cand), rng@));
        }
        let keep_old = match &best {
            Some(b) => pressure < b.0 || (pressure == b.0 && empty_around > b.1) || (pressure == b.0
                && empty_around == b.1 && piece_count > b.2) || (pressure == b.0 && empty_around == b.1
                && piece_count == b.2 && hand_count >= b.3),
            None => false,
        };
        assert(keep_old == ec_keep_old(bs, cand));
        if !keep_old {
            best = Some((pressure, empty_around, piece_count, hand_count, initial));
            proof {
                bs = Some(cand);
            }
            if pressure >= 8 && empty_around <= 3 && piece_count <= 7 && hand_count <= 2 {
                done = true;
            }
        }
    }
    match best {
        Some(b) => Some(b.4),
        None => None,
    }
}

} // verus!

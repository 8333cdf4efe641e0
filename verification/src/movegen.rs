use vstd::prelude::*;
use crate::pieces::{
    BoardPiece, Move, Owner, PieceType, Pos, HAND_TYPES, valid_xy, sq_index, spec_step_moves,
    spec_extra_steps, spec_slide_dirs, spec_transform_dir, spec_promotion_zone, spec_hand_types,
    lemma_hand_types, step_moves, extra_steps, slide_dirs, transform_dir, promotion_zone,
};
use crate::state::{
    State, pos_of, spec_apply, move_ok, law_ok, move_from_pos, move_to_pos, make_move, undo_move,
    lemma_apply_wf, lemma_apply_room, lemma_undo_after_apply, lemma_room_capture, lemma_pos_of_idx,
    spec_captured, UndoInfo,
};
use crate::attacks::{spec_in_check, is_in_check};
use crate::attacks::unit_dir;

verus! {

broadcast use vstd::array::group_array_axioms;

pub open spec fn mk_move(fx: int, fy: int, tx: int, ty: int, promote: bool) -> Move {
    Move { from: Some([fx as i8, fy as i8]), to: [tx as i8, ty as i8], drop: None, promote }
}

pub open spec fn mk_drop(t: PieceType, x: int, y: int) -> Move {
    Move { from: None, to: [x as i8, y as i8], drop: Some(t), promote: false }
}

/// A pawn or lance on its last rank, or a knight on its last two ranks,
/// could never move again.
pub open spec fn spec_no_go(owner: Owner, t: PieceType, y: int) -> bool {
    ||| (t == PieceType::P || t == PieceType::L) && ((owner == Owner::Attacker && y == 1) || (owner
        == Owner::Defender && y == 9))
    ||| t == PieceType::N && ((owner == Owner::Attacker && y <= 2) || (owner == Owner::Defender && y
        >= 8))
}

pub fn no_go(owner: Owner, t: PieceType, y: i8) -> (r: bool)
    ensures
        r == spec_no_go(owner, t, y as int),
{
    match t {
        PieceType::P | PieceType::L => (owner == Owner::Attacker && y == 1) || (owner == Owner::Defender
            && y == 9),
        PieceType::N => (owner == Owner::Attacker && y <= 2) || (owner == Owner::Defender && y >= 8),
        _ => false,
    }
}

/// Whether moving a piece of kind `t` from row `from_y` to row `to_y` may
/// (`promote`) or may not promote.
pub open spec fn spec_promotion_legal(owner: Owner, t: PieceType, from_y: int, to_y: int, promote: bool) -> bool {
    if !t.spec_is_promotable() {
        !promote
    } else if !(spec_promotion_zone(owner, from_y) || spec_promotion_zone(owner, to_y)) {
        !promote
    } else if !promote {
        !spec_no_go(owner, t, to_y)
    } else {
        true
    }
}

fn is_move_promotion_legal(owner: Owner, t: PieceType, from_y: i8, to_y: i8, promote: bool) -> (r: bool)
    ensures
        r == spec_promotion_legal(owner, t, from_y as int, to_y as int, promote),
{
    if !t.is_promotable() {
        return !promote;
    }
    let can_promote = promotion_zone(owner, from_y) || promotion_zone(owner, to_y);
    if !can_promote {
        return !promote;
    }
    if !promote {
        if no_go(owner, t, to_y) {
            return false;
        }
    }
    true
}

/// The moves (with and without promotion, as allowed) of a piece of kind
/// `t` going from `(fx, fy)` to `(nx, ny)`.
pub open spec fn target_moves(owner: Owner, t: PieceType, fx: int, fy: int, nx: int, ny: int) -> Seq<Move> {
    if t.spec_is_promoted() {
        seq![mk_move(fx, fy, nx, ny, false)]
    } else if t.spec_is_promotable() && (spec_promotion_zone(owner, fy) || spec_promotion_zone(owner, ny)) {
        (if spec_promotion_legal(owner, t, fy, ny, false) {
            seq![mk_move(fx, fy, nx, ny, false)]
        } else {
            seq![]
        }) + (if spec_promotion_legal(owner, t, fy, ny, true) {
            seq![mk_move(fx, fy, nx, ny, true)]
        } else {
            seq![]
        })
    } else {
        seq![mk_move(fx, fy, nx, ny, false)]
    }
}

fn add_moves_for_target(moves: &mut Vec<Move>, owner: Owner, piece_type: PieceType, fx: i8, fy: i8, nx: i8, ny: i8)
    ensures
        final(moves)@ == old(moves)@ + target_moves(owner, piece_type, fx as int, fy as int, nx as int, ny as int),
{
    if piece_type.is_promoted() {
        moves.push(Move { from: Some([fx, fy]), to: [nx, ny], drop: None, promote: false });
    } else if piece_type.is_promotable() && (promotion_zone(owner, fy) || promotion_zone(owner, ny)) {
        if is_move_promotion_legal(owner, piece_type, fy, ny, false) {
            moves.push(Move { from: Some([fx, fy]), to: [nx, ny], drop: None, promote: false });
        }
        if is_move_promotion_legal(owner, piece_type, fy, ny, true) {
            moves.push(Move { from: Some([fx, fy]), to: [nx, ny], drop: None, promote: true });
        }
    } else {
        moves.push(Move { from: Some([fx, fy]), to: [nx, ny], drop: None, promote: false });
    }
    assert(final(moves)@ =~= old(moves)@ + target_moves(owner, piece_type, fx as int, fy as int, nx as int, ny as int));
}


/// A square the piece may step onto: on the board and not holding a piece of its own side.
pub open spec fn open_for(s: State, owner: Owner, x: int, y: int) -> bool {
    valid_xy(x, y) && (s.piece_at(x, y) is None || s.piece_at(x, y).unwrap().owner != owner)
}

/// Moves produced by the single step `d` of `piece` standing on `pos`.
pub open spec fn step_target(s: State, pos: Pos, piece: BoardPiece, d: (i8, i8)) -> Seq<Move> {
    let (tx, ty) = spec_transform_dir(piece.owner, d.0 as int, d.1 as int);
    let nx = pos.x + tx;
    let ny = pos.y + ty;
    if open_for(s, piece.owner, nx, ny) {
        target_moves(piece.owner, piece.piece_type, pos.x as int, pos.y as int, nx, ny)
    } else {
        seq![]
    }
}

pub open spec fn step_part(s: State, pos: Pos, piece: BoardPiece, dirs: Seq<(i8, i8)>, n: nat) -> Seq<Move>
    decreases n,
{
    if n == 0 || n > dirs.len() {
        seq![]
    } else {
        step_part(s, pos, piece, dirs, (n - 1) as nat) + step_target(s, pos, piece, dirs[n - 1])
    }
}

/// Moves along a slide from `(x, y)` (excluded) in direction `(tx, ty)`:
/// every empty square, then an enemy piece's square; stop before an own piece.
pub open spec fn slide_ray(s: State, pos: Pos, piece: BoardPiece, x: int, y: int, tx: int, ty: int, fuel: nat) -> Seq<Move>
    decreases fuel,
{
    let nx = x + tx;
    let ny = y + ty;
    if fuel == 0 || !valid_xy(nx, ny) {
        seq![]
    } else {
        match s.piece_at(nx, ny) {
            Some(bp) => if bp.owner == piece.owner {
                seq![]
            } else {
                target_moves(piece.owner, piece.piece_type, pos.x as int, pos.y as int, nx, ny)
            },
            None => target_moves(piece.owner, piece.piece_type, pos.x as int, pos.y as int, nx, ny)
                + slide_ray(s, pos, piece, nx, ny, tx, ty, (fuel - 1) as nat),
        }
    }
}

pub open spec fn slide_target(s: State, pos: Pos, piece: BoardPiece, d: (i8, i8)) -> Seq<Move> {
    let (tx, ty) = spec_transform_dir(piece.owner, d.0 as int, d.1 as int);
    slide_ray(s, pos, piece, pos.x as int, pos.y as int, tx, ty, 9)
}

pub open spec fn slide_part(s: State, pos: Pos, piece: BoardPiece, dirs: Seq<(i8, i8)>, n: nat) -> Seq<Move>
    decreases n,
{
    if n == 0 || n > dirs.len() {
        seq![]
    } else {
        slide_part(s, pos, piece, dirs, (n - 1) as nat) + slide_target(s, pos, piece, dirs[n - 1])
    }
}

pub open spec fn extra_target(s: State, pos: Pos, piece: BoardPiece, d: (i8, i8)) -> Seq<Move> {
    let (tx, ty) = spec_transform_dir(piece.owner, d.0 as int, d.1 as int);
    let nx = pos.x + tx;
    let ny = pos.y + ty;
    if open_for(s, piece.owner, nx, ny) {
        seq![mk_move(pos.x as int, pos.y as int, nx, ny, false)]
    } else {
        seq![]
    }
}

pub open spec fn extra_part(s: State, pos: Pos, piece: BoardPiece, dirs: Seq<(i8, i8)>, n: nat) -> Seq<Move>
    decreases n,
{
    if n == 0 || n > dirs.len() {
        seq![]
    } else {
        extra_part(s, pos, piece, dirs, (n - 1) as nat) + extra_target(s, pos, piece, dirs[n - 1])
    }
}

/// Moves of `piece` on `pos` by the movement rules alone (own king safety
/// not considered): single steps, then slides, then the extra steps of the
/// promoted rook and bishop.
pub open spec fn spec_pseudo_moves_from(s: State, pos: Pos, piece: BoardPiece) -> Seq<Move> {
    let t = piece.piece_type;
    step_part(s, pos, piece, spec_step_moves(t), spec_step_moves(t).len())
        + slide_part(s, pos, piece, spec_slide_dirs(t), spec_slide_dirs(t).len())
        + extra_part(s, pos, piece, spec_extra_steps(t), spec_extra_steps(t).len())
}

fn open_for_exec(s: &State, owner: Owner, np: Pos) -> (r: bool)
    ensures
        r == open_for(*s, owner, np.x as int, np.y as int),
{
    if !np.is_valid() {
        return false;
    }
    if let Some(target) = s.get(np) {
        if target.owner == owner {
            return false;
        }
    }
    true
}

#[verifier::rlimit(40)]
fn slide_moves(state: &State, pos: Pos, piece: BoardPiece, tx: i8, ty: i8, moves: &mut Vec<Move>)
    requires
        pos.spec_valid(),
        unit_dir(tx as int, ty as int),
    ensures
        final(moves)@ == old(moves)@ + slide_ray(*state, pos, piece, pos.x as int, pos.y as int, tx as int, ty as int, 9),
{
    let owner = piece.owner;
    let t = piece.piece_type;
    let mut nx = pos.x + tx;
    let mut ny = pos.y + ty;
    let ghost mut fuel: nat = 9;
    let ghost base = old(moves)@;
    while Pos::new(nx, ny).is_valid()
        invariant
            base == old(moves)@,
            unit_dir(tx as int, ty as int),
            pos.spec_valid(),
            owner == piece.owner,
            t == piece.piece_type,
            1 <= fuel <= 9,
            tx == 1 ==> nx == pos.x + 10 - fuel,
            tx == -1 ==> nx == pos.x - 10 + fuel,
            tx == 0 ==> nx == pos.x,
            ty == 1 ==> ny == pos.y + 10 - fuel,
            ty == -1 ==> ny == pos.y - 10 + fuel,
            ty == 0 ==> ny == pos.y,
            base + slide_ray(*state, pos, piece, pos.x as int, pos.y as int, tx as int, ty as int, 9)
                == moves@ + slide_ray(*state, pos, piece, nx - tx, ny - ty, tx as int, ty as int, fuel),
        decreases fuel,
    {
        let target = state.get(Pos::new(nx, ny));
        if let Some(t_piece) = target {
            if t_piece.owner == owner {
                assert(slide_ray(*state, pos, piece, nx - tx, ny - ty, tx as int, ty as int, fuel) =~= seq![]);
                assert(moves@ + seq![] =~= moves@);
                assert(moves@ == base + slide_ray(*state, pos, piece, pos.x as int, pos.y as int, tx as int, ty as int, 9));
                return;
            }
        }
        let ghost before = moves@;
        add_moves_for_target(moves, owner, t, pos.x, pos.y, nx, ny);
        if target.is_some() {
            assert(moves@ =~= before + slide_ray(*state, pos, piece, nx - tx, ny - ty, tx as int, ty as int, fuel));
            assert(moves@ == base + slide_ray(*state, pos, piece, pos.x as int, pos.y as int, tx as int, ty as int, 9));
            return;
        }
        assert(before + slide_ray(*state, pos, piece, nx - tx, ny - ty, tx as int, ty as int, fuel)
            =~= moves@ + slide_ray(*state, pos, piece, nx as int, ny as int, tx as int, ty as int, (fuel - 1) as nat));
        nx = nx + tx;
        ny = ny + ty;
        proof {
            fuel = (fuel - 1) as nat;
        }
    }
    assert(moves@ + seq![] =~= moves@);
}

/// Moves of the piece on `pos` by its movement rules, own king safety not considered.
pub fn pseudo_moves_from(state: &State, pos: Pos, piece: BoardPiece) -> (r: Vec<Move>)
    requires
        pos.spec_valid(),
    ensures
        r@ == spec_pseudo_moves_from(*state, pos, piece),
{
    let mut moves: Vec<Move> = Vec::new();
    let owner = piece.owner;
    let t = piece.piece_type;
    let steps = step_moves(t);
    let mut i: usize = 0;
    while i < steps.len()
        invariant
            i <= steps@.len(),
            steps@ == spec_step_moves(t),
            pos.spec_valid(),
            owner == piece.owner,
            t == piece.piece_type,
            moves@ == step_part(*state, pos, piece, steps@, i as nat),
        decreases steps.len() - i,
    {
        let (dx, dy) = steps[i];
        let (tx, ty) = transform_dir(owner, dx, dy);
        let np = Pos::new(pos.x + tx, pos.y + ty);
        let ghost before = moves@;
        if open_for_exec(state, owner, np) {
            add_moves_for_target(&mut moves, owner, t, pos.x, pos.y, np.x, np.y);
        }
        assert(moves@ =~= before + step_target(*state, pos, piece, steps@[i as int]));
        i = i + 1;
    }
    let ghost part1 = moves@;
    let slides = slide_dirs(t);
    let mut i: usize = 0;
    while i < slides.len()
        invariant
            i <= slides@.len(),
            slides@ == spec_slide_dirs(t),
            pos.spec_valid(),
            owner == piece.owner,
            t == piece.piece_type,
            moves@ == part1 + slide_part(*state, pos, piece, slides@, i as nat),
        decreases slides.len() - i,
    {
        let (dx, dy) = slides[i];
        let (tx, ty) = transform_dir(owner, dx, dy);
        let ghost before = moves@;
        slide_moves(state, pos, piece, tx, ty, &mut moves);
        assert(moves@ =~= part1 + slide_part(*state, pos, piece, slides@, (i + 1) as nat));
        i = i + 1;
    }
    let ghost part2 = moves@;
    let extra = extra_steps(t);
    let mut i: usize = 0;
    while i < extra.len()
        invariant
            i <= extra@.len(),
            extra@ == spec_extra_steps(t),
            pos.spec_valid(),
            owner == piece.owner,
            t == piece.piece_type,
            moves@ == part2 + extra_part(*state, pos, piece, extra@, i as nat),
        decreases extra.len() - i,
    {
        let (dx, dy) = extra[i];
        let (tx, ty) = transform_dir(owner, dx, dy);
        let np = Pos::new(pos.x + tx, pos.y + ty);
        if open_for_exec(state, owner, np) {
            moves.push(Move { from: Some([pos.x, pos.y]), to: [np.x, np.y], drop: None, promote: false });
        }
        assert(moves@ =~= part2 + extra_part(*state, pos, piece, extra@, (i + 1) as nat));
        i = i + 1;
    }
    assert(moves@ =~= spec_pseudo_moves_from(*state, pos, piece));
    moves
}


/// `owner` has an unpromoted pawn on file `x`.
pub open spec fn spec_pawn_on_file(s: State, owner: Owner, x: int) -> bool {
    exists|y: int| 1 <= y <= 9 && #[trigger] s.piece_at(x, y) == Some(
        BoardPiece { owner, piece_type: PieceType::P },
    )
}

pub fn has_pawn_on_file(state: &State, owner: Owner, x: i8) -> (r: bool)
    requires
        1 <= x <= 9,
    ensures
        r == spec_pawn_on_file(*state, owner, x as int),
{
    let mut y: i8 = 1;
    while y <= 9
        invariant
            1 <= x <= 9,
            1 <= y <= 10,
            forall|yy: int| 1 <= yy < y ==> state.piece_at(x as int, yy) != Some(
                BoardPiece { owner, piece_type: PieceType::P },
            ),
        decreases 10 - y,
    {
        if let Some(bp) = state.get(Pos::new(x, y)) {
            if bp.owner == owner && bp.piece_type == PieceType::P {
                assert(state.piece_at(x as int, y as int) == Some(BoardPiece { owner, piece_type: PieceType::P }));
                return true;
            }
        }
        y = y + 1;
    }
    false
}

/// Dropping a piece of kind `t` from `owner`'s hand on `(x, y)` obeys the
/// drop rules: a piece is in hand, the square is empty, the piece could move
/// again from there, and a pawn does not make two pawns on a file.
pub open spec fn drop_ok(s: State, owner: Owner, t: PieceType, x: int, y: int) -> bool {
    &&& s.hands.count(owner, t) != 0
    &&& s.piece_at(x, y) is None
    &&& !spec_no_go(owner, t, y)
    &&& !(t == PieceType::P && spec_pawn_on_file(s, owner, x))
}

/// The drop candidate with flat number `k`: hand kind `k / 81`, square `k % 81`.
pub open spec fn drop_at(s: State, owner: Owner, k: int) -> Seq<Move> {
    let t = spec_hand_types()[k / 81];
    let sq = k % 81;
    let x = sq % 9 + 1;
    let y = sq / 9 + 1;
    if drop_ok(s, owner, t, x, y) {
        seq![mk_drop(t, x, y)]
    } else {
        seq![]
    }
}

pub open spec fn drops_upto(s: State, owner: Owner, n: nat) -> Seq<Move>
    decreases n,
{
    if n == 0 {
        seq![]
    } else {
        drops_upto(s, owner, (n - 1) as nat) + drop_at(s, owner, n - 1)
    }
}

/// All drops of `owner` by the drop rules (own king safety and the pawn-drop
/// mate rule not considered), by hand kind, then row, then file.
pub open spec fn spec_pseudo_drops(s: State, owner: Owner) -> Seq<Move> {
    drops_upto(s, owner, 567)
}

pub fn pseudo_drops(state: &State, owner: Owner) -> (r: Vec<Move>)
    ensures
        r@ == spec_pseudo_drops(*state, owner),
{
    let mut out: Vec<Move> = Vec::new();
    let mut ti: usize = 0;
    while ti < 7
        invariant
            ti <= 7,
            out@ == drops_upto(*state, owner, (ti * 81) as nat),
        decreases 7 - ti,
    {
        let t = HAND_TYPES[ti];
        proof {
            lemma_hand_types(ti as int);
        }
        let count = state.hands.get(owner, t);
        let mut y: i8 = 1;
        while y <= 9
            invariant
                ti < 7,
                t == spec_hand_types()[ti as int],
                t.spec_is_hand_type(),
                count == state.hands.count(owner, t),
                1 <= y <= 10,
                out@ == drops_upto(*state, owner, (ti * 81 + (y - 1) * 9) as nat),
            decreases 10 - y,
        {
            let mut x: i8 = 1;
            while x <= 9
                invariant
                    ti < 7,
                    t == spec_hand_types()[ti as int],
                    t.spec_is_hand_type(),
                    count == state.hands.count(owner, t),
                    1 <= y <= 9,
                    1 <= x <= 10,
                    out@ == drops_upto(*state, owner, (ti * 81 + (y - 1) * 9 + (x - 1)) as nat),
                decreases 10 - x,
            {
                let ghost k: int = ti * 81 + (y - 1) * 9 + (x - 1);
                assert(k / 81 == ti && k % 81 == (y - 1) * 9 + (x - 1)) by (nonlinear_arith)
                    requires
                        k == ti * 81 + (y - 1) * 9 + (x - 1),
                        0 <= (y - 1) * 9 + (x - 1) < 81,
                ;
                assert((k % 81) % 9 + 1 == x && (k % 81) / 9 + 1 == y) by (nonlinear_arith)
                    requires
                        k % 81 == (y - 1) * 9 + (x - 1),
                        1 <= x <= 9,
                        1 <= y <= 9,
                ;
                let ghost before = out@;
                let p = Pos::new(x, y);
                let ok = count != 0 && state.get(p).is_none() && !no_go(owner, t, y) && !(t
                    == PieceType::P && has_pawn_on_file(state, owner, x));
                if ok {
                    out.push(Move { from: None, to: [x, y], drop: Some(t), promote: false });
                }
                assert(out@ =~= before + drop_at(*state, owner, k));
                x = x + 1;
            }
            y = y + 1;
        }
        ti = ti + 1;
    }
    out
}


/// The shape of a generated board move of `piece` from `pos`.
pub open spec fn board_move_shape(s: State, pos: Pos, piece: BoardPiece, m: Move) -> bool {
    &&& m.drop is None
    &&& m.from == Some([pos.x, pos.y])
    &&& open_for(s, piece.owner, m.to[0] as int, m.to[1] as int)
    &&& (m.to[0] != pos.x || m.to[1] != pos.y)
    &&& (m.promote ==> piece.piece_type.spec_is_promotable())
}

pub open spec fn all_shape(s: State, pos: Pos, piece: BoardPiece, ms: Seq<Move>) -> bool {
    forall|k: int| 0 <= k < ms.len() ==> board_move_shape(s, pos, piece, #[trigger] ms[k])
}

pub proof fn lemma_all_shape_concat(s: State, pos: Pos, piece: BoardPiece, a: Seq<Move>, b: Seq<Move>)
    requires
        all_shape(s, pos, piece, a),
        all_shape(s, pos, piece, b),
    ensures
        all_shape(s, pos, piece, a + b),
{
    assert forall|k: int| 0 <= k < (a + b).len() implies board_move_shape(s, pos, piece, #[trigger] (a + b)[k]) by {
        if k < a.len() {
            assert((a + b)[k] == a[k]);
        } else {
            assert((a + b)[k] == b[k - a.len()]);
        }
    }
}

pub proof fn lemma_target_moves_shape(s: State, pos: Pos, piece: BoardPiece, nx: int, ny: int)
    requires
        pos.spec_valid(),
        open_for(s, piece.owner, nx, ny),
        nx != pos.x || ny != pos.y,
    ensures
        all_shape(s, pos, piece, target_moves(piece.owner, piece.piece_type, pos.x as int, pos.y as int, nx, ny)),
{
    let ms = target_moves(piece.owner, piece.piece_type, pos.x as int, pos.y as int, nx, ny);
    assert forall|k: int| 0 <= k < ms.len() implies board_move_shape(s, pos, piece, #[trigger] ms[k]) by {
        assert(ms[k].from == Some([pos.x, pos.y]));
    }
}

pub proof fn lemma_step_part_shape(s: State, pos: Pos, piece: BoardPiece, dirs: Seq<(i8, i8)>, n: nat)
    requires
        pos.spec_valid(),
        forall|i: int| 0 <= i < dirs.len() ==> unit_or_knight(#[trigger] dirs[i]),
    ensures
        all_shape(s, pos, piece, step_part(s, pos, piece, dirs, n)),
    decreases n,
{
    if n != 0 && n <= dirs.len() {
        lemma_step_part_shape(s, pos, piece, dirs, (n - 1) as nat);
        let d = dirs[n - 1];
        assert(unit_or_knight(d));
        let (tx, ty) = spec_transform_dir(piece.owner, d.0 as int, d.1 as int);
        if open_for(s, piece.owner, pos.x + tx, pos.y + ty) {
            lemma_target_moves_shape(s, pos, piece, pos.x + tx, pos.y + ty);
        }
        lemma_all_shape_concat(s, pos, piece, step_part(s, pos, piece, dirs, (n - 1) as nat), step_target(s, pos, piece, d));
    }
}

pub open spec fn unit_or_knight(d: (i8, i8)) -> bool {
    (d.0 != 0 || d.1 != 0) && -2 <= d.0 <= 2 && -2 <= d.1 <= 2
}

pub proof fn lemma_extra_part_shape(s: State, pos: Pos, piece: BoardPiece, dirs: Seq<(i8, i8)>, n: nat)
    requires
        pos.spec_valid(),
        forall|i: int| 0 <= i < dirs.len() ==> unit_or_knight(#[trigger] dirs[i]),
    ensures
        all_shape(s, pos, piece, extra_part(s, pos, piece, dirs, n)),
    decreases n,
{
    if n != 0 && n <= dirs.len() {
        lemma_extra_part_shape(s, pos, piece, dirs, (n - 1) as nat);
        let d = dirs[n - 1];
        assert(unit_or_knight(d));
        let ms = extra_target(s, pos, piece, d);
        assert forall|k: int| 0 <= k < ms.len() implies board_move_shape(s, pos, piece, #[trigger] ms[k]) by {
            assert(ms[k].from == Some([pos.x, pos.y]));
        }
        lemma_all_shape_concat(s, pos, piece, extra_part(s, pos, piece, dirs, (n - 1) as nat), ms);
    }
}

/// Every target of a slide lies strictly ahead of where the walk stands.
pub proof fn lemma_slide_ray_shape(s: State, pos: Pos, piece: BoardPiece, x: int, y: int, tx: int, ty: int, fuel: nat)
    requires
        pos.spec_valid(),
        unit_dir(tx, ty),
        tx > 0 ==> x >= pos.x,
        tx < 0 ==> x <= pos.x,
        tx == 0 ==> x == pos.x,
        ty > 0 ==> y >= pos.y,
        ty < 0 ==> y <= pos.y,
        ty == 0 ==> y == pos.y,
    ensures
        all_shape(s, pos, piece, slide_ray(s, pos, piece, x, y, tx, ty, fuel)),
    decreases fuel,
{
    let nx = x + tx;
    let ny = y + ty;
    if fuel != 0 && valid_xy(nx, ny) {
        match s.piece_at(nx, ny) {
            Some(bp) => {
                if bp.owner != piece.owner {
                    lemma_target_moves_shape(s, pos, piece, nx, ny);
                }
            },
            None => {
                lemma_target_moves_shape(s, pos, piece, nx, ny);
                lemma_slide_ray_shape(s, pos, piece, nx, ny, tx, ty, (fuel - 1) as nat);
                lemma_all_shape_concat(
                    s,
                    pos,
                    piece,
                    target_moves(piece.owner, piece.piece_type, pos.x as int, pos.y as int, nx, ny),
                    slide_ray(s, pos, piece, nx, ny, tx, ty, (fuel - 1) as nat),
                );
            },
        }
    }
}

pub proof fn lemma_slide_part_shape(s: State, pos: Pos, piece: BoardPiece, dirs: Seq<(i8, i8)>, n: nat)
    requires
        pos.spec_valid(),
        forall|i: int| 0 <= i < dirs.len() ==> unit_dir(#[trigger] dirs[i].0 as int, dirs[i].1 as int),
    ensures
        all_shape(s, pos, piece, slide_part(s, pos, piece, dirs, n)),
    decreases n,
{
    if n != 0 && n <= dirs.len() {
        lemma_slide_part_shape(s, pos, piece, dirs, (n - 1) as nat);
        let d = dirs[n - 1];
        assert(unit_dir(d.0 as int, d.1 as int));
        let (tx, ty) = spec_transform_dir(piece.owner, d.0 as int, d.1 as int);
        lemma_slide_ray_shape(s, pos, piece, pos.x as int, pos.y as int, tx, ty, 9);
        lemma_all_shape_concat(s, pos, piece, slide_part(s, pos, piece, dirs, (n - 1) as nat), slide_target(s, pos, piece, d));
    }
}

/// Every move `pseudo_moves_from` produces has the shape of a board move of that piece.
pub proof fn lemma_pseudo_shape(s: State, pos: Pos, piece: BoardPiece)
    requires
        pos.spec_valid(),
    ensures
        all_shape(s, pos, piece, spec_pseudo_moves_from(s, pos, piece)),
{
    let t = piece.piece_type;
    lemma_step_part_shape(s, pos, piece, spec_step_moves(t), spec_step_moves(t).len());
    lemma_slide_part_shape(s, pos, piece, spec_slide_dirs(t), spec_slide_dirs(t).len());
    lemma_extra_part_shape(s, pos, piece, spec_extra_steps(t), spec_extra_steps(t).len());
    let a = step_part(s, pos, piece, spec_step_moves(t), spec_step_moves(t).len());
    let b = slide_part(s, pos, piece, spec_slide_dirs(t), spec_slide_dirs(t).len());
    let c = extra_part(s, pos, piece, spec_extra_steps(t), spec_extra_steps(t).len());
    lemma_all_shape_concat(s, pos, piece, a, b);
    lemma_all_shape_concat(s, pos, piece, a + b, c);
}

/// A board move of the side to move with that shape can be played and taken back.
pub proof fn lemma_shape_law_ok(s: State, pos: Pos, m: Move)
    requires
        s.wf(),
        s.room(),
        pos.spec_valid(),
        s.at(pos.spec_idx()) matches Some(bp) && bp.owner == s.side_to_move,
        board_move_shape(s, pos, s.at(pos.spec_idx()).unwrap(), m),
    ensures
        law_ok(s, m),
{
    assert(move_from_pos(m) == pos);
    lemma_room_capture(s, m);
    crate::pieces::lemma_promote_roundtrip(s.at(pos.spec_idx()).unwrap().piece_type);
}


/// Playing `m` does not leave the mover's own king in check.
pub open spec fn keeps_king_safe(s: State, m: Move) -> bool {
    !spec_in_check(spec_apply(s, m), s.side_to_move)
}

/// The first `n` moves of `ms` that keep the king safe.
pub open spec fn keep_safe(s: State, ms: Seq<Move>, n: nat) -> Seq<Move>
    decreases n,
{
    if n == 0 || n > ms.len() {
        seq![]
    } else {
        keep_safe(s, ms, (n - 1) as nat) + if keeps_king_safe(s, ms[n - 1]) {
            seq![ms[n - 1]]
        } else {
            seq![]
        }
    }
}

pub open spec fn side_piece_at(s: State, i: int) -> bool {
    s.at(i) matches Some(bp) && bp.owner == s.side_to_move
}

/// The pseudo-legal moves of the piece on square `i`, if it belongs to the side to move.
pub open spec fn pseudo_at(s: State, i: int) -> Seq<Move> {
    if side_piece_at(s, i) {
        spec_pseudo_moves_from(s, pos_of(i), s.at(i).unwrap())
    } else {
        seq![]
    }
}

pub open spec fn legal_board_upto(s: State, n: nat) -> Seq<Move>
    decreases n,
{
    if n == 0 {
        seq![]
    } else {
        legal_board_upto(s, (n - 1) as nat) + keep_safe(s, pseudo_at(s, n - 1), pseudo_at(s, n - 1).len())
    }
}

/// Board moves of the side to move that do not leave its king in check,
/// square by square (row 1 first, file 1 first), each square's moves in
/// `pseudo_moves_from` order.
pub open spec fn spec_legal_board_moves(s: State) -> Seq<Move> {
    legal_board_upto(s, 81)
}

/// Whether a board move, which `pseudo_moves_from` produced, leaves the mover's king safe.
pub(crate) fn board_move_is_safe(state: &mut State, pos: Pos, m: &Move) -> (r: bool)
    requires
        old(state).wf(),
        old(state).room(),
        pos.spec_valid(),
        side_piece_at(*old(state), pos.spec_idx()),
        board_move_shape(*old(state), pos, old(state).at(pos.spec_idx()).unwrap(), *m),
    ensures
        *final(state) == *old(state),
        r == keeps_king_safe(*old(state), *m),
{
    let ghost s0 = *state;
    proof {
        lemma_shape_law_ok(s0, pos, *m);
        lemma_apply_wf(s0, *m);
        lemma_undo_after_apply(s0, *m);
    }
    let owner = state.side_to_move;
    let undo = make_move(state, m);
    let in_check = is_in_check(state, owner);
    undo_move(state, m, &undo);
    !in_check
}

/// The board moves of the side to move that do not leave its own king in check.
pub fn legal_board_moves(state: &mut State) -> (r: Vec<Move>)
    requires
        old(state).wf(),
        old(state).room(),
    ensures
        *final(state) == *old(state),
        r@ == spec_legal_board_moves(*old(state)),
{
    let ghost s0 = *state;
    let owner = state.side_to_move;
    let mut out: Vec<Move> = Vec::new();
    let mut idx: usize = 0;
    while idx < 81
        invariant
            idx <= 81,
            *state == s0,
            s0.wf(),
            s0.room(),
            owner == s0.side_to_move,
            out@ == legal_board_upto(s0, idx as nat),
        decreases 81 - idx,
    {
        let p = Pos::new((idx % 9 + 1) as i8, (idx / 9 + 1) as i8);
        proof {
            lemma_pos_of_idx(p);
            assert(p == pos_of(idx as int));
        }
        let ghost before = out@;
        if let Some(bp) = state.get(p) {
            if bp.owner == owner {
                let ms = pseudo_moves_from(state, p, bp);
                proof {
                    lemma_pseudo_shape(s0, p, bp);
                }
                let mut k: usize = 0;
                while k < ms.len()
                    invariant
                        k <= ms@.len(),
                        *state == s0,
                        s0.wf(),
                        s0.room(),
                        p.spec_valid(),
                        p == pos_of(idx as int),
                        idx < 81,
                        s0.at(p.spec_idx()) == Some(bp),
                        bp.owner == s0.side_to_move,
                        ms@ == pseudo_at(s0, idx as int),
                        all_shape(s0, p, bp, ms@),
                        out@ == before + keep_safe(s0, ms@, k as nat),
                    decreases ms.len() - k,
                {
                    let m = ms[k];
                    assert(board_move_shape(s0, p, bp, ms@[k as int]));
                    if board_move_is_safe(state, p, &m) {
                        out.push(m);
                    }
                    k = k + 1;
                }
            }
        }
        proof {
            assert(out@ =~= legal_board_upto(s0, (idx + 1) as nat));
        }
        idx = idx + 1;
    }
    out
}

} // verus!

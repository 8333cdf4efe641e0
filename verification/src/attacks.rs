use vstd::prelude::*;
use crate::pieces::{
    BoardPiece, Owner, PieceType, Pos, valid_xy, sq_index, spec_step_moves, spec_extra_steps,
    spec_transform_dir, step_moves, extra_steps, transform_dir, spec_is_sliding_piece,
};
use crate::state::State;

verus! {

broadcast use vstd::array::group_array_axioms;

/// `dirs` holds the offset `(dx, dy)`.
pub open spec fn dir_in(dirs: Seq<(i8, i8)>, dx: int, dy: int) -> bool {
    exists|i: int| 0 <= i < dirs.len() && dirs[i].0 as int == dx && dirs[i].1 as int == dy
}

/// A piece of kind `t` owned by `owner` on `(fx, fy)` reaches `(tx, ty)`
/// with one of its single steps.
pub open spec fn can_step(t: PieceType, owner: Owner, fx: int, fy: int, tx: int, ty: int) -> bool {
    let (ndx, ndy) = spec_transform_dir(owner, tx - fx, ty - fy);
    dir_in(spec_step_moves(t), ndx, ndy) || dir_in(spec_extra_steps(t), ndx, ndy)
}

/// The first occupied square met when walking from `(x, y)` in direction
/// `(dx, dy)` (the start square excluded), within `fuel` steps.
pub open spec fn first_on_ray(s: State, x: int, y: int, dx: int, dy: int, fuel: nat) -> Option<(
    Pos,
    BoardPiece,
)>
    decreases fuel,
{
    if fuel == 0 {
        None
    } else if !valid_xy(x + dx, y + dy) {
        None
    } else if s.piece_at(x + dx, y + dy) is Some {
        Some((Pos { x: (x + dx) as i8, y: (y + dy) as i8 }, s.piece_at(x + dx, y + dy).unwrap()))
    } else {
        first_on_ray(s, x + dx, y + dy, dx, dy, (fuel - 1) as nat)
    }
}

/// The eight neighbouring offsets, in scanning order.
pub open spec fn king_dirs() -> Seq<(i8, i8)> {
    spec_step_moves(PieceType::K)
}

pub open spec fn orth_dirs() -> Seq<(i8, i8)> {
    seq![(0i8, -1i8), (1i8, 0i8), (0i8, 1i8), (-1i8, 0i8)]
}

pub open spec fn diag_dirs() -> Seq<(i8, i8)> {
    seq![(1i8, -1i8), (1i8, 1i8), (-1i8, 1i8), (-1i8, -1i8)]
}

/// Where a knight of `attacker` must stand, relative to its target.
pub open spec fn knight_offsets(attacker: Owner) -> Seq<(i8, i8)> {
    match attacker {
        Owner::Attacker => seq![(1i8, 2i8), (-1i8, 2i8)],
        Owner::Defender => seq![(1i8, -2i8), (-1i8, -2i8)],
    }
}

/// The direction, seen from the target, in which a lance of `attacker` stands.
pub open spec fn lance_back(attacker: Owner) -> int {
    match attacker {
        Owner::Attacker => 1,
        Owner::Defender => -1,
    }
}

/// The neighbour of `target` in direction `i` holds a piece of `attacker`
/// that steps onto `target`.
pub open spec fn neighbor_attacks(s: State, target: Pos, attacker: Owner, i: int) -> bool {
    let d = king_dirs()[i];
    let qx = target.x + d.0;
    let qy = target.y + d.1;
    &&& valid_xy(qx, qy)
    &&& s.piece_at(qx, qy) matches Some(bp)
    &&& bp.owner == attacker
    &&& can_step(bp.piece_type, attacker, qx, qy, target.x as int, target.y as int)
}

pub open spec fn knight_attacks(s: State, target: Pos, attacker: Owner, j: int) -> bool {
    let d = knight_offsets(attacker)[j];
    let qx = target.x + d.0;
    let qy = target.y + d.1;
    &&& valid_xy(qx, qy)
    &&& s.piece_at(qx, qy) == Some(BoardPiece { owner: attacker, piece_type: PieceType::N })
}

/// The first piece seen from `target` along orthogonal direction `i` is a
/// rook, dragon, or (looking back along its path) a lance of `attacker`.
pub open spec fn orth_attacks(s: State, target: Pos, attacker: Owner, i: int) -> bool {
    let d = orth_dirs()[i];
    match first_on_ray(s, target.x as int, target.y as int, d.0 as int, d.1 as int, 9) {
        Some((_, bp)) => bp.owner == attacker && (bp.piece_type == PieceType::R || bp.piece_type
            == PieceType::PR || (bp.piece_type == PieceType::L && d.1 as int == lance_back(attacker))),
        None => false,
    }
}

/// The first piece seen from `target` along diagonal direction `i` is a
/// bishop or horse of `attacker`.
pub open spec fn diag_attacks(s: State, target: Pos, attacker: Owner, i: int) -> bool {
    let d = diag_dirs()[i];
    match first_on_ray(s, target.x as int, target.y as int, d.0 as int, d.1 as int, 9) {
        Some((_, bp)) => bp.owner == attacker && (bp.piece_type == PieceType::B || bp.piece_type
            == PieceType::PB),
        None => false,
    }
}

/// `target` is attacked by a piece of `attacker`.
pub open spec fn spec_attacked(s: State, target: Pos, attacker: Owner) -> bool {
    ||| exists|i: int| 0 <= i < 8 && #[trigger] neighbor_attacks(s, target, attacker, i)
    ||| exists|j: int| 0 <= j < 2 && #[trigger] knight_attacks(s, target, attacker, j)
    ||| exists|i: int| 0 <= i < 4 && #[trigger] orth_attacks(s, target, attacker, i)
    ||| exists|i: int| 0 <= i < 4 && #[trigger] diag_attacks(s, target, attacker, i)
}

/// The king of `owner`, as cached, is attacked; with no king there is no check.
pub open spec fn spec_in_check(s: State, owner: Owner) -> bool {
    match s.king_cache(owner) {
        Some(kp) => spec_attacked(s, kp, owner.spec_opposite()),
        None => false,
    }
}

fn dir_contains(dirs: &Vec<(i8, i8)>, dx: i8, dy: i8) -> (r: bool)
    ensures
        r == dir_in(dirs@, dx as int, dy as int),
{
    let mut i: usize = 0;
    while i < dirs.len()
        invariant
            i <= dirs.len(),
            forall|j: int| 0 <= j < i ==> !(dirs@[j].0 == dx && dirs@[j].1 == dy),
        decreases dirs.len() - i,
    {
        let (sx, sy) = dirs[i];
        if sx == dx && sy == dy {
            return true;
        }
        i = i + 1;
    }
    false
}

/// Whether a piece of kind `piece_type` owned by `owner` on `from` steps onto `target`.
fn can_step_to(piece_type: PieceType, owner: Owner, from: Pos, target: Pos) -> (r: bool)
    requires
        from.spec_valid(),
        target.spec_valid(),
    ensures
        r == can_step(piece_type, owner, from.x as int, from.y as int, target.x as int, target.y as int),
{
    let dx = target.x - from.x;
    let dy = target.y - from.y;
    let (ndx, ndy) = transform_dir(owner, dx, dy);
    let steps = step_moves(piece_type);
    if dir_contains(&steps, ndx, ndy) {
        return true;
    }
    let extra = extra_steps(piece_type);
    dir_contains(&extra, ndx, ndy)
}

pub fn king_dirs_exec() -> (r: Vec<(i8, i8)>)
    ensures
        r@ == king_dirs(),
{
    step_moves(PieceType::K)
}

pub fn orth_dirs_exec() -> (r: Vec<(i8, i8)>)
    ensures
        r@ == orth_dirs(),
{
    vec![(0, -1), (1, 0), (0, 1), (-1, 0)]
}

pub fn diag_dirs_exec() -> (r: Vec<(i8, i8)>)
    ensures
        r@ == diag_dirs(),
{
    vec![(1, -1), (1, 1), (-1, 1), (-1, -1)]
}

pub fn knight_offsets_exec(attacker: Owner) -> (r: Vec<(i8, i8)>)
    ensures
        r@ == knight_offsets(attacker),
{
    match attacker {
        Owner::Attacker => vec![(1, 2), (-1, 2)],
        Owner::Defender => vec![(1, -2), (-1, -2)],
    }
}

pub open spec fn unit_dir(dx: int, dy: int) -> bool {
    -1 <= dx <= 1 && -1 <= dy <= 1 && (dx != 0 || dy != 0)
}

/// Walk from `start` (excluded) in direction `(dx, dy)` to the first
/// occupied square.
pub fn first_piece_on_ray(s: &State, start: Pos, dx: i8, dy: i8) -> (r: Option<(Pos, BoardPiece)>)
    requires
        start.spec_valid(),
        unit_dir(dx as int, dy as int),
    ensures
        r == first_on_ray(*s, start.x as int, start.y as int, dx as int, dy as int, 9),
        r matches Some((p, _)) ==> p.spec_valid(),
{
    let mut nx = start.x + dx;
    let mut ny = start.y + dy;
    let ghost mut fuel: nat = 9;
    while Pos::new(nx, ny).is_valid()
        invariant
            unit_dir(dx as int, dy as int),
            start.spec_valid(),
            1 <= fuel <= 9,
            dx == 1 ==> nx == start.x + 10 - fuel,
            dx == -1 ==> nx == start.x - 10 + fuel,
            dx == 0 ==> nx == start.x,
            dy == 1 ==> ny == start.y + 10 - fuel,
            dy == -1 ==> ny == start.y - 10 + fuel,
            dy == 0 ==> ny == start.y,
            first_on_ray(*s, start.x as int, start.y as int, dx as int, dy as int, 9) == first_on_ray(
                *s,
                nx - dx,
                ny - dy,
                dx as int,
                dy as int,
                fuel,
            ),
        decreases fuel,
    {
        let p = Pos::new(nx, ny);
        if let Some(bp) = s.get(p) {
            return Some((p, bp));
        }
        nx = nx + dx;
        ny = ny + dy;
        proof {
            fuel = (fuel - 1) as nat;
        }
    }
    None
}


fn lance_back_exec(attacker: Owner) -> (r: i8)
    ensures
        r as int == lance_back(attacker),
{
    match attacker {
        Owner::Attacker => 1,
        Owner::Defender => -1,
    }
}

/// Whether a piece of `attacker` attacks `target`.
pub fn is_square_attacked(state: &State, target: Pos, attacker: Owner) -> (r: bool)
    requires
        target.spec_valid(),
    ensures
        r == spec_attacked(*state, target, attacker),
{
    let kd = king_dirs_exec();
    let mut i: usize = 0;
    while i < 8
        invariant
            i <= 8,
            kd@ == king_dirs(),
            target.spec_valid(),
            forall|j: int| 0 <= j < i ==> !neighbor_attacks(*state, target, attacker, j),
        decreases 8 - i,
    {
        let (dx, dy) = kd[i];
        let p = Pos::new(target.x + dx, target.y + dy);
        if p.is_valid() {
            if let Some(bp) = state.get(p) {
                if bp.owner == attacker && can_step_to(bp.piece_type, attacker, p, target) {
                    assert(neighbor_attacks(*state, target, attacker, i as int));
                    return true;
                }
            }
        }
        i = i + 1;
    }
    let ko = knight_offsets_exec(attacker);
    let mut j: usize = 0;
    while j < 2
        invariant
            j <= 2,
            ko@ == knight_offsets(attacker),
            target.spec_valid(),
            forall|k: int| 0 <= k < j ==> !knight_attacks(*state, target, attacker, k),
        decreases 2 - j,
    {
        let (dx, dy) = ko[j];
        let p = Pos::new(target.x + dx, target.y + dy);
        if p.is_valid() {
            if let Some(bp) = state.get(p) {
                if bp.owner == attacker && bp.piece_type == PieceType::N {
                    assert(knight_attacks(*state, target, attacker, j as int));
                    return true;
                }
            }
        }
        j = j + 1;
    }
    let od = orth_dirs_exec();
    let back = lance_back_exec(attacker);
    let mut i: usize = 0;
    while i < 4
        invariant
            i <= 4,
            od@ == orth_dirs(),
            back as int == lance_back(attacker),
            target.spec_valid(),
            forall|k: int| 0 <= k < i ==> !orth_attacks(*state, target, attacker, k),
        decreases 4 - i,
    {
        let (dx, dy) = od[i];
        if let Some((_, bp)) = first_piece_on_ray(state, target, dx, dy) {
            if bp.owner == attacker {
                match bp.piece_type {
                    PieceType::R | PieceType::PR => {
                        assert(orth_attacks(*state, target, attacker, i as int));
                        return true;
                    },
                    PieceType::L => {
                        if dy == back {
                            assert(orth_attacks(*state, target, attacker, i as int));
                            return true;
                        }
                    },
                    _ => {},
                }
            }
        }
        i = i + 1;
    }
    let dd = diag_dirs_exec();
    let mut i: usize = 0;
    while i < 4
        invariant
            i <= 4,
            dd@ == diag_dirs(),
            target.spec_valid(),
            forall|k: int| 0 <= k < i ==> !diag_attacks(*state, target, attacker, k),
        decreases 4 - i,
    {
        let (dx, dy) = dd[i];
        if let Some((_, bp)) = first_piece_on_ray(state, target, dx, dy) {
            if bp.owner == attacker {
                match bp.piece_type {
                    PieceType::B | PieceType::PB => {
                        assert(diag_attacks(*state, target, attacker, i as int));
                        return true;
                    },
                    _ => {},
                }
            }
        }
        i = i + 1;
    }
    false
}

/// Whether the king of `owner` is in check; a side without a king is never in check.
pub fn is_in_check(state: &State, owner: Owner) -> (r: bool)
    requires
        state.wf(),
    ensures
        r == spec_in_check(*state, owner),
{
    let kp = match state.king_pos(owner) {
        Some(p) => p,
        None => return false,
    };
    is_square_attacked(state, kp, owner.opposite())
}


pub open spec fn neighbor_sq(kp: Pos, i: int) -> Pos {
    Pos { x: (kp.x + king_dirs()[i].0) as i8, y: (kp.y + king_dirs()[i].1) as i8 }
}

pub open spec fn knight_sq(kp: Pos, a: Owner, j: int) -> Pos {
    Pos { x: (kp.x + knight_offsets(a)[j].0) as i8, y: (kp.y + knight_offsets(a)[j].1) as i8 }
}

/// Neighbouring checkers among the first `n` directions, in scanning order.
pub open spec fn neighbor_checkers(s: State, kp: Pos, a: Owner, n: nat) -> Seq<(Pos, BoardPiece)>
    decreases n,
{
    if n == 0 {
        seq![]
    } else {
        let prev = neighbor_checkers(s, kp, a, (n - 1) as nat);
        if neighbor_attacks(s, kp, a, n - 1) {
            let q = neighbor_sq(kp, n - 1);
            prev.push((q, s.at(q.spec_idx()).unwrap()))
        } else {
            prev
        }
    }
}

pub open spec fn knight_checkers(s: State, kp: Pos, a: Owner, n: nat) -> Seq<(Pos, BoardPiece)>
    decreases n,
{
    if n == 0 {
        seq![]
    } else {
        let prev = knight_checkers(s, kp, a, (n - 1) as nat);
        if knight_attacks(s, kp, a, n - 1) {
            let q = knight_sq(kp, a, n - 1);
            prev.push((q, s.at(q.spec_idx()).unwrap()))
        } else {
            prev
        }
    }
}

pub open spec fn orth_checkers(s: State, kp: Pos, a: Owner, n: nat) -> Seq<(Pos, BoardPiece)>
    decreases n,
{
    if n == 0 {
        seq![]
    } else {
        let prev = orth_checkers(s, kp, a, (n - 1) as nat);
        let d = orth_dirs()[n - 1];
        if orth_attacks(s, kp, a, n - 1) {
            prev.push(first_on_ray(s, kp.x as int, kp.y as int, d.0 as int, d.1 as int, 9).unwrap())
        } else {
            prev
        }
    }
}

pub open spec fn diag_checkers(s: State, kp: Pos, a: Owner, n: nat) -> Seq<(Pos, BoardPiece)>
    decreases n,
{
    if n == 0 {
        seq![]
    } else {
        let prev = diag_checkers(s, kp, a, (n - 1) as nat);
        let d = diag_dirs()[n - 1];
        if diag_attacks(s, kp, a, n - 1) {
            prev.push(first_on_ray(s, kp.x as int, kp.y as int, d.0 as int, d.1 as int, 9).unwrap())
        } else {
            prev
        }
    }
}

/// Every piece giving check to the king of `king_owner`: neighbours, then
/// knights, then orthogonal and diagonal sliders, in scanning order.
pub open spec fn spec_checkers(s: State, king_owner: Owner) -> Seq<(Pos, BoardPiece)> {
    match s.king_cache(king_owner) {
        None => seq![],
        Some(kp) => {
            let a = king_owner.spec_opposite();
            neighbor_checkers(s, kp, a, 8) + knight_checkers(s, kp, a, 2) + orth_checkers(s, kp, a, 4)
                + diag_checkers(s, kp, a, 4)
        },
    }
}

/// The pieces giving check to the king of `king_owner`, with their squares.
pub fn find_checkers(state: &State, king_owner: Owner) -> (r: Vec<(Pos, BoardPiece)>)
    requires
        state.wf(),
    ensures
        r@ == spec_checkers(*state, king_owner),
{
    let kp = match state.king_pos(king_owner) {
        Some(p) => p,
        None => return Vec::new(),
    };
    let attacker = king_owner.opposite();
    let mut checkers: Vec<(Pos, BoardPiece)> = Vec::new();
    let kd = king_dirs_exec();
    let mut i: usize = 0;
    while i < 8
        invariant
            i <= 8,
            kd@ == king_dirs(),
            kp.spec_valid(),
            checkers@ == neighbor_checkers(*state, kp, attacker, i as nat),
        decreases 8 - i,
    {
        let (dx, dy) = kd[i];
        let p = Pos::new(kp.x + dx, kp.y + dy);
        if p.is_valid() {
            if let Some(bp) = state.get(p) {
                if bp.owner == attacker && can_step_to(bp.piece_type, attacker, p, kp) {
                    checkers.push((p, bp));
                }
            }
        }
        i = i + 1;
    }
    let ghost n_part = checkers@;
    let ko = knight_offsets_exec(attacker);
    let mut j: usize = 0;
    while j < 2
        invariant
            j <= 2,
            ko@ == knight_offsets(attacker),
            kp.spec_valid(),
            checkers@ == n_part + knight_checkers(*state, kp, attacker, j as nat),
        decreases 2 - j,
    {
        let (dx, dy) = ko[j];
        let p = Pos::new(kp.x + dx, kp.y + dy);
        if p.is_valid() {
            if let Some(bp) = state.get(p) {
                if bp.owner == attacker && bp.piece_type == PieceType::N {
                    checkers.push((p, bp));
                }
            }
        }
        j = j + 1;
    }
    let ghost k_part = checkers@;
    let od = orth_dirs_exec();
    let back = lance_back_exec(attacker);
    let mut i: usize = 0;
    while i < 4
        invariant
            i <= 4,
            od@ == orth_dirs(),
            back as int == lance_back(attacker),
            kp.spec_valid(),
            checkers@ == k_part + orth_checkers(*state, kp, attacker, i as nat),
        decreases 4 - i,
    {
        let (dx, dy) = od[i];
        if let Some((q, bp)) = first_piece_on_ray(state, kp, dx, dy) {
            if bp.owner == attacker {
                match bp.piece_type {
                    PieceType::R | PieceType::PR => checkers.push((q, bp)),
                    PieceType::L => {
                        if dy == back {
                            checkers.push((q, bp));
                        }
                    },
                    _ => {},
                }
            }
        }
        i = i + 1;
    }
    let ghost o_part = checkers@;
    let dd = diag_dirs_exec();
    let mut i: usize = 0;
    while i < 4
        invariant
            i <= 4,
            dd@ == diag_dirs(),
            kp.spec_valid(),
            checkers@ == o_part + diag_checkers(*state, kp, attacker, i as nat),
        decreases 4 - i,
    {
        let (dx, dy) = dd[i];
        if let Some((q, bp)) = first_piece_on_ray(state, kp, dx, dy) {
            if bp.owner == attacker {
                match bp.piece_type {
                    PieceType::B | PieceType::PB => checkers.push((q, bp)),
                    _ => {},
                }
            }
        }
        i = i + 1;
    }
    checkers
}

pub open spec fn signum(v: int) -> int {
    if v > 0 {
        1
    } else if v < 0 {
        -1
    } else {
        0
    }
}

pub open spec fn abs(v: int) -> int {
    if v < 0 {
        -v
    } else {
        v
    }
}

/// `target` lies strictly between `checker` and `king` on a common rank,
/// file or diagonal.
pub open spec fn spec_is_between(checker: Pos, king: Pos, target: Pos) -> bool {
    let dx = king.x - checker.x;
    let dy = king.y - checker.y;
    let tx = target.x - checker.x;
    let ty = target.y - checker.y;
    if dx == 0 && dy == 0 {
        false
    } else if dx == 0 {
        tx == 0 && signum(ty) == signum(dy) && abs(ty) > 0 && abs(ty) < abs(dy)
    } else if dy == 0 {
        ty == 0 && signum(tx) == signum(dx) && abs(tx) > 0 && abs(tx) < abs(dx)
    } else if abs(dx) == abs(dy) {
        abs(tx) == abs(ty) && signum(tx) == signum(dx) && signum(ty) == signum(dy) && abs(tx) > 0
            && abs(tx) < abs(dx)
    } else {
        false
    }
}

/// The sign of `v` (-1, 0 or 1).
pub fn sgn(v: i8) -> (r: i8)
    ensures
        r as int == signum(v as int),
{
    if v > 0 {
        1
    } else if v < 0 {
        -1
    } else {
        0
    }
}

/// The absolute value of `v`, which must not be `i8::MIN`.
pub fn abs8(v: i8) -> (r: i8)
    requires
        v > -128,
    ensures
        r as int == abs(v as int),
{
    if v < 0 {
        -v
    } else {
        v
    }
}

/// Coordinate differences stay within `i8`.
pub open spec fn small_diff(a: Pos, b: Pos) -> bool {
    -127 <= a.x - b.x <= 127 && -127 <= a.y - b.y <= 127
}

/// Whether `target` lies strictly between `checker` and `king` on a line.
pub fn is_between(checker: Pos, king: Pos, target: Pos) -> (r: bool)
    requires
        small_diff(king, checker),
        small_diff(target, checker),
    ensures
        r == spec_is_between(checker, king, target),
{
    let dx = king.x - checker.x;
    let dy = king.y - checker.y;
    let tx = target.x - checker.x;
    let ty = target.y - checker.y;
    if dx == 0 && dy == 0 {
        return false;
    }
    if dx == 0 {
        tx == 0 && sgn(ty) == sgn(dy) && abs8(ty) > 0 && abs8(ty) < abs8(dy)
    } else if dy == 0 {
        ty == 0 && sgn(tx) == sgn(dx) && abs8(tx) > 0 && abs8(tx) < abs8(dx)
    } else if abs8(dx) == abs8(dy) {
        abs8(tx) == abs8(ty) && sgn(tx) == sgn(dx) && sgn(ty) == sgn(dy)
            && abs8(tx) > 0 && abs8(tx) < abs8(dx)
    } else {
        false
    }
}


pub open spec fn aligned(c: Pos, k: Pos) -> bool {
    let dx = k.x - c.x;
    let dy = k.y - c.y;
    dx == 0 || dy == 0 || abs(dx) == abs(dy)
}

/// `n` steps of unit `s` (-1, 0 or 1).
pub open spec fn steps(s: int, n: int) -> int {
    if s == 1 {
        n
    } else if s == -1 {
        -n
    } else {
        0
    }
}

pub open spec fn line_len(c: Pos, k: Pos) -> int {
    let ax = abs(k.x - c.x);
    let ay = abs(k.y - c.y);
    if ax >= ay {
        ax
    } else {
        ay
    }
}

/// The squares strictly between `c` and `k`, walking from `c`.
pub open spec fn interp_seq(c: Pos, k: Pos) -> Seq<Pos> {
    let sx = signum(k.x - c.x);
    let sy = signum(k.y - c.y);
    let n = line_len(c, k);
    Seq::new(
        if n == 0 {
            0nat
        } else {
            (n - 1) as nat
        },
        |j: int| Pos { x: (c.x + steps(sx, j + 1)) as i8, y: (c.y + steps(sy, j + 1)) as i8 },
    )
}

/// The squares strictly between a sliding checker and the king it checks.
pub fn interposition_squares(checker: Pos, king: Pos) -> (r: Vec<Pos>)
    requires
        aligned(checker, king),
        small_diff(king, checker),
    ensures
        r@ == interp_seq(checker, king),
{
    let dx = sgn(king.x - checker.x);
    let dy = sgn(king.y - checker.y);
    let mut squares: Vec<Pos> = Vec::new();
    if checker.x == king.x && checker.y == king.y {
        return squares;
    }
    let ghost n = line_len(checker, king);
    let mut x = checker.x + dx;
    let mut y = checker.y + dy;
    let ghost mut j: int = 0;
    while !(x == king.x && y == king.y)
        invariant
            aligned(checker, king),
            small_diff(king, checker),
            n == line_len(checker, king),
            n >= 1,
            dx as int == signum(king.x - checker.x),
            dy as int == signum(king.y - checker.y),
            0 <= j <= n - 1,
            x as int == checker.x + steps(dx as int, j + 1),
            y as int == checker.y + steps(dy as int, j + 1),
            squares@ == interp_seq(checker, king).take(j),
        decreases n - 1 - j,
    {
        squares.push(Pos::new(x, y));
        proof {
            assert(squares@ =~= interp_seq(checker, king).take(j + 1));
            j = j + 1;
        }
        x = x + dx;
        y = y + dy;
    }
    assert(squares@ =~= interp_seq(checker, king));
    squares
}

/// Law: on a line, the interposition squares are exactly the squares that
/// `is_between` accepts.
pub proof fn lemma_interposition_is_between(c: Pos, k: Pos, t: Pos)
    requires
        aligned(c, k),
    ensures
        interp_seq(c, k).contains(t) <==> spec_is_between(c, k, t),
{
    let q = interp_seq(c, k);
    let sx = signum(k.x - c.x);
    let sy = signum(k.y - c.y);
    if q.contains(t) {
        let j = choose|j: int| 0 <= j < q.len() && q[j] == t;
        assert(q[j] == t);
    }
    if spec_is_between(c, k, t) {
        let tx = t.x - c.x;
        let ty = t.y - c.y;
        let j = if tx != 0 {
            abs(tx) - 1
        } else {
            abs(ty) - 1
        };
        assert(0 <= j < q.len());
        assert(q[j] == t);
    }
}


/// `p` lies `j >= 1` steps from `(x, y)` in direction `(dx, dy)`.
pub open spec fn on_ray(x: int, y: int, dx: int, dy: int, p: Pos) -> bool {
    exists|j: int| j >= 1 && p.x == x + steps(dx, j) && p.y == y + steps(dy, j)
}

pub proof fn lemma_first_on_ray_on_line(s: State, x: int, y: int, dx: int, dy: int, fuel: nat)
    requires
        unit_dir(dx, dy),
    ensures
        first_on_ray(s, x, y, dx, dy, fuel) matches Some((p, bp)) ==> p.spec_valid() && on_ray(
            x,
            y,
            dx,
            dy,
            p,
        ) && s.at(p.spec_idx()) == Some(bp),
    decreases fuel,
{
    if fuel > 0 && valid_xy(x + dx, y + dy) {
        if s.piece_at(x + dx, y + dy) is Some {
            let p = Pos { x: (x + dx) as i8, y: (y + dy) as i8 };
            assert(p.x == x + steps(dx, 1) && p.y == y + steps(dy, 1));
        } else {
            lemma_first_on_ray_on_line(s, x + dx, y + dy, dx, dy, (fuel - 1) as nat);
            if let Some((p, _)) = first_on_ray(s, x, y, dx, dy, fuel) {
                let j = choose|j: int|
                    j >= 1 && p.x == x + dx + steps(dx, j) && p.y == y + dy + steps(dy, j);
                assert(p.x == x + steps(dx, j + 1) && p.y == y + steps(dy, j + 1));
            }
        }
    }
}

/// A checker is a piece of `a` standing on the board and, when it slides,
/// on a line with the king.
pub open spec fn checker_ok(s: State, kp: Pos, a: Owner, c: (Pos, BoardPiece)) -> bool {
    &&& c.0.spec_valid()
    &&& s.at(c.0.spec_idx()) == Some(c.1)
    &&& c.1.owner == a
    &&& (spec_is_sliding_piece(c.1.piece_type) ==> aligned(c.0, kp))
}

proof fn lemma_ray_checker_ok(s: State, kp: Pos, a: Owner, d: (i8, i8))
    requires
        unit_dir(d.0 as int, d.1 as int),
        first_on_ray(s, kp.x as int, kp.y as int, d.0 as int, d.1 as int, 9) matches Some((_, bp)) && bp.owner == a,
    ensures
        checker_ok(s, kp, a, first_on_ray(s, kp.x as int, kp.y as int, d.0 as int, d.1 as int, 9).unwrap()),
{
    lemma_first_on_ray_on_line(s, kp.x as int, kp.y as int, d.0 as int, d.1 as int, 9);
    let p = first_on_ray(s, kp.x as int, kp.y as int, d.0 as int, d.1 as int, 9).unwrap().0;
    let j = choose|j: int|
        j >= 1 && p.x == kp.x + steps(d.0 as int, j) && p.y == kp.y + steps(d.1 as int, j);
    assert(p.x == kp.x + steps(d.0 as int, j));
}

proof fn lemma_push_checker_ok(s: State, kp: Pos, a: Owner, prev: Seq<(Pos, BoardPiece)>, c: (Pos, BoardPiece))
    requires
        forall|i: int| 0 <= i < prev.len() ==> #[trigger] checker_ok(s, kp, a, prev[i]),
        checker_ok(s, kp, a, c),
    ensures
        forall|i: int| 0 <= i < prev.push(c).len() ==> #[trigger] checker_ok(s, kp, a, prev.push(c)[i]),
{
    assert forall|i: int| 0 <= i < prev.push(c).len() implies #[trigger] checker_ok(s, kp, a, prev.push(c)[i]) by {
        if i < prev.len() {
            assert(prev.push(c)[i] == prev[i]);
        }
    }
}

proof fn lemma_neighbor_checkers_ok(s: State, kp: Pos, a: Owner, n: nat)
    requires
        n <= 8,
    ensures
        forall|i: int|
            0 <= i < neighbor_checkers(s, kp, a, n).len() ==> #[trigger] checker_ok(
                s,
                kp,
                a,
                neighbor_checkers(s, kp, a, n)[i],
            ),
    decreases n,
{
    if n > 0 {
        lemma_neighbor_checkers_ok(s, kp, a, (n - 1) as nat);
        let d = king_dirs()[n - 1];
        assert(-1 <= d.0 <= 1 && -1 <= d.1 <= 1 && (d.0 != 0 || d.1 != 0));
        if neighbor_attacks(s, kp, a, n - 1) {
            let q = neighbor_sq(kp, n - 1);
            assert(q.x == kp.x + d.0 && q.y == kp.y + d.1);
            lemma_push_checker_ok(s, kp, a, neighbor_checkers(s, kp, a, (n - 1) as nat), (q, s.at(q.spec_idx()).unwrap()));
        }
    }
}

proof fn lemma_knight_checkers_ok(s: State, kp: Pos, a: Owner, n: nat)
    requires
        n <= 2,
    ensures
        forall|i: int|
            0 <= i < knight_checkers(s, kp, a, n).len() ==> #[trigger] checker_ok(
                s,
                kp,
                a,
                knight_checkers(s, kp, a, n)[i],
            ),
    decreases n,
{
    if n > 0 {
        lemma_knight_checkers_ok(s, kp, a, (n - 1) as nat);
        if knight_attacks(s, kp, a, n - 1) {
            let q = knight_sq(kp, a, n - 1);
            let d = knight_offsets(a)[n - 1];
            assert(q.x == kp.x + d.0 && q.y == kp.y + d.1);
            assert(s.at(q.spec_idx()) == s.piece_at(q.x as int, q.y as int));
            lemma_push_checker_ok(s, kp, a, knight_checkers(s, kp, a, (n - 1) as nat), (q, s.at(q.spec_idx()).unwrap()));
        }
    }
}

proof fn lemma_orth_checkers_ok(s: State, kp: Pos, a: Owner, n: nat)
    requires
        n <= 4,
    ensures
        forall|i: int|
            0 <= i < orth_checkers(s, kp, a, n).len() ==> #[trigger] checker_ok(
                s,
                kp,
                a,
                orth_checkers(s, kp, a, n)[i],
            ),
    decreases n,
{
    if n > 0 {
        lemma_orth_checkers_ok(s, kp, a, (n - 1) as nat);
        let d = orth_dirs()[n - 1];
        if orth_attacks(s, kp, a, n - 1) {
            lemma_ray_checker_ok(s, kp, a, d);
            lemma_push_checker_ok(
                s,
                kp,
                a,
                orth_checkers(s, kp, a, (n - 1) as nat),
                first_on_ray(s, kp.x as int, kp.y as int, d.0 as int, d.1 as int, 9).unwrap(),
            );
        }
    }
}

proof fn lemma_diag_checkers_ok(s: State, kp: Pos, a: Owner, n: nat)
    requires
        n <= 4,
    ensures
        forall|i: int|
            0 <= i < diag_checkers(s, kp, a, n).len() ==> #[trigger] checker_ok(
                s,
                kp,
                a,
                diag_checkers(s, kp, a, n)[i],
            ),
    decreases n,
{
    if n > 0 {
        lemma_diag_checkers_ok(s, kp, a, (n - 1) as nat);
        let d = diag_dirs()[n - 1];
        if diag_attacks(s, kp, a, n - 1) {
            lemma_ray_checker_ok(s, kp, a, d);
            lemma_push_checker_ok(
                s,
                kp,
                a,
                diag_checkers(s, kp, a, (n - 1) as nat),
                first_on_ray(s, kp.x as int, kp.y as int, d.0 as int, d.1 as int, 9).unwrap(),
            );
        }
    }
}

/// Every checker stands on the board, and a sliding checker stands on a line
/// with the king.
pub proof fn lemma_checkers_ok(s: State, o: Owner)
    ensures
        s.king_cache(o) matches Some(kp) ==> forall|i: int|
            0 <= i < spec_checkers(s, o).len() ==> #[trigger] checker_ok(
                s,
                kp,
                o.spec_opposite(),
                spec_checkers(s, o)[i],
            ),
{
    if let Some(kp) = s.king_cache(o) {
        let a = o.spec_opposite();
        lemma_neighbor_checkers_ok(s, kp, a, 8);
        lemma_knight_checkers_ok(s, kp, a, 2);
        lemma_orth_checkers_ok(s, kp, a, 4);
        lemma_diag_checkers_ok(s, kp, a, 4);
        let p1 = neighbor_checkers(s, kp, a, 8);
        let p2 = knight_checkers(s, kp, a, 2);
        let p3 = orth_checkers(s, kp, a, 4);
        let p4 = diag_checkers(s, kp, a, 4);
        assert forall|i: int| 0 <= i < spec_checkers(s, o).len() implies #[trigger] checker_ok(
            s,
            kp,
            a,
            spec_checkers(s, o)[i],
        ) by {
            let all = p1 + p2 + p3 + p4;
            assert(spec_checkers(s, o) == all);
            if i < p1.len() {
                assert(all[i] == p1[i]);
            } else if i < p1.len() + p2.len() {
                assert(all[i] == p2[i - p1.len()]);
            } else if i < p1.len() + p2.len() + p3.len() {
                assert(all[i] == p3[i - p1.len() - p2.len()]);
            } else {
                assert(all[i] == p4[i - p1.len() - p2.len() - p3.len()]);
            }
        }
    }
}

proof fn lemma_neighbor_checkers_empty(s: State, kp: Pos, a: Owner, n: nat)
    ensures
        neighbor_checkers(s, kp, a, n).len() == 0 <==> forall|i: int| 0 <= i < n ==> !#[trigger] neighbor_attacks(s, kp, a, i),
    decreases n,
{
    if n > 0 {
        lemma_neighbor_checkers_empty(s, kp, a, (n - 1) as nat);
    }
}

proof fn lemma_knight_checkers_empty(s: State, kp: Pos, a: Owner, n: nat)
    ensures
        knight_checkers(s, kp, a, n).len() == 0 <==> forall|i: int| 0 <= i < n ==> !#[trigger] knight_attacks(s, kp, a, i),
    decreases n,
{
    if n > 0 {
        lemma_knight_checkers_empty(s, kp, a, (n - 1) as nat);
    }
}

proof fn lemma_orth_checkers_empty(s: State, kp: Pos, a: Owner, n: nat)
    ensures
        orth_checkers(s, kp, a, n).len() == 0 <==> forall|i: int| 0 <= i < n ==> !#[trigger] orth_attacks(s, kp, a, i),
    decreases n,
{
    if n > 0 {
        lemma_orth_checkers_empty(s, kp, a, (n - 1) as nat);
    }
}

proof fn lemma_diag_checkers_empty(s: State, kp: Pos, a: Owner, n: nat)
    ensures
        diag_checkers(s, kp, a, n).len() == 0 <==> forall|i: int| 0 <= i < n ==> !#[trigger] diag_attacks(s, kp, a, i),
    decreases n,
{
    if n > 0 {
        lemma_diag_checkers_empty(s, kp, a, (n - 1) as nat);
    }
}

/// Law: the king of `o` is in check exactly when some piece gives check to
/// it (the list of checkers is not empty).
pub proof fn lemma_checkers_iff_check(s: State, o: Owner)
    ensures
        spec_checkers(s, o).len() > 0 <==> spec_in_check(s, o),
{
    match s.king_cache(o) {
        None => {},
        Some(kp) => {
            let a = o.spec_opposite();
            lemma_neighbor_checkers_empty(s, kp, a, 8);
            lemma_knight_checkers_empty(s, kp, a, 2);
            lemma_orth_checkers_empty(s, kp, a, 4);
            lemma_diag_checkers_empty(s, kp, a, 4);
        },
    }
}


/// `c` is a piece of the opponent of `o` that attacks the king of `o`:
/// a neighbour that steps onto the king's square, a knight a jump away, or
/// the first piece on an orthogonal or diagonal line from the king that moves
/// along that line (a rook, dragon or forward-facing lance; a bishop or
/// horse), with its square.
pub open spec fn attacks_king(s: State, o: Owner, c: (Pos, BoardPiece)) -> bool {
    match s.king_cache(o) {
        None => false,
        Some(kp) => {
            let a = o.spec_opposite();
            ||| exists|i: int|
                0 <= i < 8 && #[trigger] neighbor_attacks(s, kp, a, i) && c == (
                    neighbor_sq(kp, i),
                    s.at(neighbor_sq(kp, i).spec_idx()).unwrap(),
                )
            ||| exists|j: int|
                0 <= j < 2 && #[trigger] knight_attacks(s, kp, a, j) && c == (
                    knight_sq(kp, a, j),
                    s.at(knight_sq(kp, a, j).spec_idx()).unwrap(),
                )
            ||| exists|i: int|
                0 <= i < 4 && #[trigger] orth_attacks(s, kp, a, i) && c == first_on_ray(
                    s,
                    kp.x as int,
                    kp.y as int,
                    orth_dirs()[i].0 as int,
                    orth_dirs()[i].1 as int,
                    9,
                ).unwrap()
            ||| exists|i: int|
                0 <= i < 4 && #[trigger] diag_attacks(s, kp, a, i) && c == first_on_ray(
                    s,
                    kp.x as int,
                    kp.y as int,
                    diag_dirs()[i].0 as int,
                    diag_dirs()[i].1 as int,
                    9,
                ).unwrap()
        },
    }
}

proof fn lemma_neighbor_checkers_contains(s: State, kp: Pos, a: Owner, n: nat, c: (Pos, BoardPiece))
    ensures
        neighbor_checkers(s, kp, a, n).contains(c) <==> exists|i: int|
            0 <= i < n && #[trigger] neighbor_attacks(s, kp, a, i) && c == (
                neighbor_sq(kp, i),
                s.at(neighbor_sq(kp, i).spec_idx()).unwrap(),
            ),
    decreases n,
{
    if n > 0 {
        lemma_neighbor_checkers_contains(s, kp, a, (n - 1) as nat, c);
        let prev = neighbor_checkers(s, kp, a, (n - 1) as nat);
        if neighbor_attacks(s, kp, a, n - 1) {
            let x = (neighbor_sq(kp, n - 1), s.at(neighbor_sq(kp, n - 1).spec_idx()).unwrap());
            assert(prev.push(x)[prev.len() as int] == x);
            if prev.contains(c) {
                let k = choose|k: int| 0 <= k < prev.len() && prev[k] == c;
                assert(prev.push(x)[k] == c);
            }
            if prev.push(x).contains(c) {
                let k = choose|k: int| 0 <= k < prev.push(x).len() && prev.push(x)[k] == c;
                if k < prev.len() {
                    assert(prev[k] == c);
                }
            }
        }
    }
}

proof fn lemma_knight_checkers_contains(s: State, kp: Pos, a: Owner, n: nat, c: (Pos, BoardPiece))
    ensures
        knight_checkers(s, kp, a, n).contains(c) <==> exists|j: int|
            0 <= j < n && #[trigger] knight_attacks(s, kp, a, j) && c == (
                knight_sq(kp, a, j),
                s.at(knight_sq(kp, a, j).spec_idx()).unwrap(),
            ),
    decreases n,
{
    if n > 0 {
        lemma_knight_checkers_contains(s, kp, a, (n - 1) as nat, c);
        let prev = knight_checkers(s, kp, a, (n - 1) as nat);
        if knight_attacks(s, kp, a, n - 1) {
            let x = (knight_sq(kp, a, n - 1), s.at(knight_sq(kp, a, n - 1).spec_idx()).unwrap());
            assert(prev.push(x)[prev.len() as int] == x);
            if prev.contains(c) {
                let k = choose|k: int| 0 <= k < prev.len() && prev[k] == c;
                assert(prev.push(x)[k] == c);
            }
            if prev.push(x).contains(c) {
                let k = choose|k: int| 0 <= k < prev.push(x).len() && prev.push(x)[k] == c;
                if k < prev.len() {
                    assert(prev[k] == c);
                }
            }
        }
    }
}

proof fn lemma_orth_checkers_contains(s: State, kp: Pos, a: Owner, n: nat, c: (Pos, BoardPiece))
    ensures
        orth_checkers(s, kp, a, n).contains(c) <==> exists|i: int|
            0 <= i < n && #[trigger] orth_attacks(s, kp, a, i) && c == first_on_ray(
                s,
                kp.x as int,
                kp.y as int,
                orth_dirs()[i].0 as int,
                orth_dirs()[i].1 as int,
                9,
            ).unwrap(),
    decreases n,
{
    if n > 0 {
        lemma_orth_checkers_contains(s, kp, a, (n - 1) as nat, c);
        let prev = orth_checkers(s, kp, a, (n - 1) as nat);
        let d = orth_dirs()[n - 1];
        if orth_attacks(s, kp, a, n - 1) {
            let x = first_on_ray(s, kp.x as int, kp.y as int, d.0 as int, d.1 as int, 9).unwrap();
            assert(prev.push(x)[prev.len() as int] == x);
            if prev.contains(c) {
                let k = choose|k: int| 0 <= k < prev.len() && prev[k] == c;
                assert(prev.push(x)[k] == c);
            }
            if prev.push(x).contains(c) {
                let k = choose|k: int| 0 <= k < prev.push(x).len() && prev.push(x)[k] == c;
                if k < prev.len() {
                    assert(prev[k] == c);
                }
            }
        }
    }
}

proof fn lemma_diag_checkers_contains(s: State, kp: Pos, a: Owner, n: nat, c: (Pos, BoardPiece))
    ensures
        diag_checkers(s, kp, a, n).contains(c) <==> exists|i: int|
            0 <= i < n && #[trigger] diag_attacks(s, kp, a, i) && c == first_on_ray(
                s,
                kp.x as int,
                kp.y as int,
                diag_dirs()[i].0 as int,
                diag_dirs()[i].1 as int,
                9,
            ).unwrap(),
    decreases n,
{
    if n > 0 {
        lemma_diag_checkers_contains(s, kp, a, (n - 1) as nat, c);
        let prev = diag_checkers(s, kp, a, (n - 1) as nat);
        let d = diag_dirs()[n - 1];
        if diag_attacks(s, kp, a, n - 1) {
            let x = first_on_ray(s, kp.x as int, kp.y as int, d.0 as int, d.1 as int, 9).unwrap();
            assert(prev.push(x)[prev.len() as int] == x);
            if prev.contains(c) {
                let k = choose|k: int| 0 <= k < prev.len() && prev[k] == c;
                assert(prev.push(x)[k] == c);
            }
            if prev.push(x).contains(c) {
                let k = choose|k: int| 0 <= k < prev.push(x).len() && prev.push(x)[k] == c;
                if k < prev.len() {
                    assert(prev[k] == c);
                }
            }
        }
    }
}

proof fn lemma_concat_contains<T>(x: Seq<T>, y: Seq<T>, c: T)
    ensures
        (x + y).contains(c) <==> x.contains(c) || y.contains(c),
{
    if x.contains(c) {
        let k = choose|k: int| 0 <= k < x.len() && x[k] == c;
        assert((x + y)[k] == c);
    }
    if y.contains(c) {
        let k = choose|k: int| 0 <= k < y.len() && y[k] == c;
        assert((x + y)[x.len() + k] == c);
    }
    if (x + y).contains(c) {
        let k = choose|k: int| 0 <= k < (x + y).len() && (x + y)[k] == c;
        if k < x.len() {
            assert(x[k] == c);
        } else {
            assert(y[k - x.len()] == c);
        }
    }
}

/// The checkers listed for the king of `o` are exactly the pieces that attack
/// it (`attacks_king`): every listed piece attacks the king, and every piece
/// that attacks the king is listed.
pub proof fn lemma_checkers_are_attackers(s: State, o: Owner, c: (Pos, BoardPiece))
    ensures
        spec_checkers(s, o).contains(c) <==> attacks_king(s, o, c),
{
    match s.king_cache(o) {
        None => {},
        Some(kp) => {
            let a = o.spec_opposite();
            let n = neighbor_checkers(s, kp, a, 8);
            let k = knight_checkers(s, kp, a, 2);
            let r = orth_checkers(s, kp, a, 4);
            let d = diag_checkers(s, kp, a, 4);
            lemma_neighbor_checkers_contains(s, kp, a, 8, c);
            lemma_knight_checkers_contains(s, kp, a, 2, c);
            lemma_orth_checkers_contains(s, kp, a, 4, c);
            lemma_diag_checkers_contains(s, kp, a, 4, c);
            lemma_concat_contains(n + k + r, d, c);
            lemma_concat_contains(n + k, r, c);
            lemma_concat_contains(n, k, c);
        },
    }
}

} // verus!

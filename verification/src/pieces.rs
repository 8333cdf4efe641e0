use vstd::prelude::*;

verus! {

broadcast use vstd::array::group_array_axioms;

/// Side of a tsume-shogi problem: the attacker gives check, the defender escapes.
#[derive(Debug, Clone, Copy, PartialEq, Eq, Hash, Structural)]
pub enum Owner {
    Attacker,
    Defender,
}

impl Owner {
    pub open spec fn spec_opposite(self) -> Owner {
        match self {
            Owner::Attacker => Owner::Defender,
            Owner::Defender => Owner::Attacker,
        }
    }

    pub fn opposite(self) -> (r: Owner)
        ensures
            r == self.spec_opposite(),
            r != self,
    {
        match self {
            Owner::Attacker => Owner::Defender,
            Owner::Defender => Owner::Attacker,
        }
    }
}

/// Piece kinds; `PR`..`PP` are the promoted forms.
#[derive(Debug, Clone, Copy, PartialEq, Eq, Hash, Structural)]
pub enum PieceType {
    K,
    R,
    B,
    G,
    S,
    N,
    L,
    P,
    PR,
    PB,
    PS,
    PN,
    PL,
    PP,
}

impl PieceType {
    pub open spec fn spec_is_promotable(self) -> bool {
        self is R || self is B || self is S || self is N || self is L || self is P
    }

    pub open spec fn spec_is_promoted(self) -> bool {
        self is PR || self is PB || self is PS || self is PN || self is PL || self is PP
    }

    pub open spec fn spec_is_hand_type(self) -> bool {
        self is R || self is B || self is G || self is S || self is N || self is L || self is P
    }

    pub open spec fn spec_promote(self) -> PieceType {
        match self {
            PieceType::R => PieceType::PR,
            PieceType::B => PieceType::PB,
            PieceType::S => PieceType::PS,
            PieceType::N => PieceType::PN,
            PieceType::L => PieceType::PL,
            PieceType::P => PieceType::PP,
            other => other,
        }
    }

    pub open spec fn spec_unpromote(self) -> PieceType {
        match self {
            PieceType::PR => PieceType::R,
            PieceType::PB => PieceType::B,
            PieceType::PS => PieceType::S,
            PieceType::PN => PieceType::N,
            PieceType::PL => PieceType::L,
            PieceType::PP => PieceType::P,
            other => other,
        }
    }

    pub fn is_promotable(self) -> (r: bool)
        ensures
            r == self.spec_is_promotable(),
    {
        match self {
            PieceType::R | PieceType::B | PieceType::S | PieceType::N | PieceType::L
            | PieceType::P => true,
            _ => false,
        }
    }

    pub fn promote(self) -> (r: PieceType)
        ensures
            r == self.spec_promote(),
    {
        match self {
            PieceType::R => PieceType::PR,
            PieceType::B => PieceType::PB,
            PieceType::S => PieceType::PS,
            PieceType::N => PieceType::PN,
            PieceType::L => PieceType::PL,
            PieceType::P => PieceType::PP,
            other => other,
        }
    }

    pub fn unpromote(self) -> (r: PieceType)
        ensures
            r == self.spec_unpromote(),
    {
        match self {
            PieceType::PR => PieceType::R,
            PieceType::PB => PieceType::B,
            PieceType::PS => PieceType::S,
            PieceType::PN => PieceType::N,
            PieceType::PL => PieceType::L,
            PieceType::PP => PieceType::P,
            other => other,
        }
    }

    pub fn is_promoted(self) -> (r: bool)
        ensures
            r == self.spec_is_promoted(),
    {
        match self {
            PieceType::PR | PieceType::PB | PieceType::PS | PieceType::PN | PieceType::PL
            | PieceType::PP => true,
            _ => false,
        }
    }

    pub fn is_hand_type(self) -> (r: bool)
        ensures
            r == self.spec_is_hand_type(),
    {
        match self {
            PieceType::R | PieceType::B | PieceType::G | PieceType::S | PieceType::N
            | PieceType::L | PieceType::P => true,
            _ => false,
        }
    }
}

/// Promoting and then unpromoting a promotable piece gives it back, and the
/// promoted form is no longer promotable.
pub proof fn lemma_promote_roundtrip(t: PieceType)
    ensures
        t.spec_is_promotable() ==> t.spec_promote().spec_unpromote() == t,
        t.spec_is_promotable() ==> t.spec_promote().spec_is_promoted(),
        t.spec_is_promoted() ==> t.spec_unpromote().spec_promote() == t,
        !t.spec_is_promotable() ==> t.spec_promote() == t,
        t.spec_unpromote().spec_unpromote() == t.spec_unpromote(),
{
}

/// A square; valid squares have both coordinates in 1..=9.
#[derive(Debug, Clone, Copy, PartialEq, Eq, Hash, Structural)]
pub struct Pos {
    pub x: i8,
    pub y: i8,
}

pub open spec fn valid_xy(x: int, y: int) -> bool {
    1 <= x <= 9 && 1 <= y <= 9
}

pub open spec fn sq_index(x: int, y: int) -> int {
    (y - 1) * 9 + (x - 1)
}

impl Pos {
    pub open spec fn spec_valid(self) -> bool {
        valid_xy(self.x as int, self.y as int)
    }

    pub open spec fn spec_idx(self) -> int {
        sq_index(self.x as int, self.y as int)
    }

    pub fn new(x: i8, y: i8) -> (r: Self)
        ensures
            r.x == x && r.y == y,
    {
        Pos { x, y }
    }

    pub fn is_valid(self) -> (r: bool)
        ensures
            r == self.spec_valid(),
    {
        self.x >= 1 && self.x <= 9 && self.y >= 1 && self.y <= 9
    }

    pub fn idx(self) -> (r: usize)
        requires
            self.spec_valid(),
        ensures
            r as int == self.spec_idx(),
            r < 81,
    {
        ((self.y - 1) * 9 + (self.x - 1)) as usize
    }
}


/// A piece standing on the board.
#[derive(Debug, Clone, Copy, PartialEq, Eq, Hash, Structural)]
pub struct BoardPiece {
    pub owner: Owner,
    pub piece_type: PieceType,
}

/// The seven kinds that can be held in hand, in hand-array order.
pub const HAND_TYPES: [PieceType; 7] = [
    PieceType::R,
    PieceType::B,
    PieceType::G,
    PieceType::S,
    PieceType::N,
    PieceType::L,
    PieceType::P,
];

pub open spec fn spec_hand_types() -> Seq<PieceType> {
    seq![PieceType::R, PieceType::B, PieceType::G, PieceType::S, PieceType::N, PieceType::L, PieceType::P]
}

/// Index of a hand kind in the hand arrays (R, B, G, S, N, L, P).
pub open spec fn spec_hand_idx(t: PieceType) -> int {
    match t {
        PieceType::R => 0,
        PieceType::B => 1,
        PieceType::G => 2,
        PieceType::S => 3,
        PieceType::N => 4,
        PieceType::L => 5,
        _ => 6,
    }
}

pub proof fn lemma_hand_types(i: int)
    requires
        0 <= i < 7,
    ensures
        HAND_TYPES@[i] == spec_hand_types()[i],
        spec_hand_types()[i].spec_is_hand_type(),
        spec_hand_idx(spec_hand_types()[i]) == i,
{
}

/// Pieces in hand for both sides, indexed R, B, G, S, N, L, P.
#[derive(Debug, Clone, Copy, PartialEq, Eq, Hash)]
pub struct Hands {
    pub attacker: [u8; 7],
    pub defender: [u8; 7],
}

impl Hands {
    pub open spec fn count(self, owner: Owner, t: PieceType) -> u8 {
        match owner {
            Owner::Attacker => self.attacker@[spec_hand_idx(t)],
            Owner::Defender => self.defender@[spec_hand_idx(t)],
        }
    }

    /// The same hands with the count of `t` for `owner` replaced by `val`.
    pub open spec fn with_count(self, owner: Owner, t: PieceType, val: u8) -> Hands {
        match owner {
            Owner::Attacker => Hands {
                attacker: vstd::array::spec_array_update(self.attacker, spec_hand_idx(t), val),
                defender: self.defender,
            },
            Owner::Defender => Hands {
                attacker: self.attacker,
                defender: vstd::array::spec_array_update(self.defender, spec_hand_idx(t), val),
            },
        }
    }

    pub fn empty() -> (r: Self)
        ensures
            forall|i: int| 0 <= i < 7 ==> r.attacker@[i] == 0 && r.defender@[i] == 0,
    {
        Hands { attacker: [0, 0, 0, 0, 0, 0, 0], defender: [0, 0, 0, 0, 0, 0, 0] }
    }

    fn hand_idx(t: PieceType) -> (r: usize)
        requires
            t.spec_is_hand_type(),
        ensures
            r as int == spec_hand_idx(t),
            r < 7,
    {
        match t {
            PieceType::R => 0,
            PieceType::B => 1,
            PieceType::G => 2,
            PieceType::S => 3,
            PieceType::N => 4,
            PieceType::L => 5,
            _ => 6,
        }
    }

    pub fn get(&self, owner: Owner, t: PieceType) -> (r: u8)
        requires
            t.spec_is_hand_type(),
        ensures
            r == self.count(owner, t),
    {
        let idx = Self::hand_idx(t);
        match owner {
            Owner::Attacker => self.attacker[idx],
            Owner::Defender => self.defender[idx],
        }
    }

    pub fn set(&mut self, owner: Owner, t: PieceType, val: u8)
        requires
            t.spec_is_hand_type(),
        ensures
            *final(self) == old(self).with_count(owner, t, val),
    {
        let idx = Self::hand_idx(t);
        match owner {
            Owner::Attacker => { self.attacker[idx] = val; },
            Owner::Defender => { self.defender[idx] = val; },
        }
    }

    pub fn add(&mut self, owner: Owner, t: PieceType, n: u8)
        requires
            t.spec_is_hand_type(),
            old(self).count(owner, t) + n <= 255,
        ensures
            *final(self) == old(self).with_count(owner, t, (old(self).count(owner, t) + n) as u8),
    {
        let v = self.get(owner, t);
        self.set(owner, t, v + n);
    }

    pub fn sub(&mut self, owner: Owner, t: PieceType, n: u8)
        requires
            t.spec_is_hand_type(),
        ensures
            *final(self) == old(self).with_count(
                owner,
                t,
                if old(self).count(owner, t) >= n { (old(self).count(owner, t) - n) as u8 } else { 0 },
            ),
    {
        let v = self.get(owner, t);
        self.set(owner, t, v.saturating_sub(n));
    }
}

/// Reading back a count that was just written gives the written value; other
/// counts are untouched.
pub proof fn lemma_hands_with_count(h: Hands, owner: Owner, t: PieceType, val: u8, o2: Owner, t2: PieceType)
    requires
        t.spec_is_hand_type(),
        t2.spec_is_hand_type(),
    ensures
        h.with_count(owner, t, val).count(o2, t2) == if o2 == owner && t2 == t { val } else { h.count(o2, t2) },
{
    broadcast use vstd::array::group_array_axioms;
    if o2 == owner && t2 != t {
        assert(spec_hand_idx(t2) != spec_hand_idx(t));
    }
}

/// A move: a board move when `from` is set, a drop when `drop` is set.
#[derive(Debug, Clone, Copy, PartialEq, Eq, Hash)]
pub struct Move {
    pub from: Option<[i8; 2]>,
    pub to: [i8; 2],
    pub drop: Option<PieceType>,
    pub promote: bool,
}

/// Whether row `y` lies in the promotion zone of `owner`.
pub open spec fn spec_promotion_zone(owner: Owner, y: int) -> bool {
    match owner {
        Owner::Attacker => y <= 3,
        Owner::Defender => y >= 7,
    }
}

pub fn promotion_zone(owner: Owner, y: i8) -> (r: bool)
    ensures
        r == spec_promotion_zone(owner, y as int),
{
    match owner {
        Owner::Attacker => y <= 3,
        Owner::Defender => y >= 7,
    }
}

/// Directions are written from the attacker's point of view (towards row 1);
/// the defender's pieces move in the mirrored direction.
pub open spec fn spec_transform_dir(owner: Owner, dx: int, dy: int) -> (int, int) {
    match owner {
        Owner::Attacker => (dx, dy),
        Owner::Defender => (-dx, -dy),
    }
}

pub fn transform_dir(owner: Owner, dx: i8, dy: i8) -> (r: (i8, i8))
    requires
        -9 <= dx <= 9,
        -9 <= dy <= 9,
    ensures
        (r.0 as int, r.1 as int) == spec_transform_dir(owner, dx as int, dy as int),
{
    match owner {
        Owner::Attacker => (dx, dy),
        Owner::Defender => (-dx, -dy),
    }
}

/// Single steps of a piece kind (attacker orientation).
pub open spec fn spec_step_moves(t: PieceType) -> Seq<(i8, i8)> {
    match t {
        PieceType::K => seq![(-1i8, -1i8), (0i8, -1i8), (1i8, -1i8), (-1i8, 0i8), (1i8, 0i8), (-1i8, 1i8), (0i8, 1i8), (1i8, 1i8)],
        PieceType::G | PieceType::PP | PieceType::PS | PieceType::PN | PieceType::PL => seq![
            (-1i8, -1i8),
            (0i8, -1i8),
            (1i8, -1i8),
            (-1i8, 0i8),
            (1i8, 0i8),
            (0i8, 1i8),
        ],
        PieceType::S => seq![(-1i8, -1i8), (0i8, -1i8), (1i8, -1i8), (-1i8, 1i8), (1i8, 1i8)],
        PieceType::N => seq![(-1i8, -2i8), (1i8, -2i8)],
        PieceType::P => seq![(0i8, -1i8)],
        _ => seq![],
    }
}

/// Sliding directions of a piece kind (attacker orientation).
pub open spec fn spec_slide_dirs(t: PieceType) -> Seq<(i8, i8)> {
    match t {
        PieceType::R | PieceType::PR => seq![(0i8, -1i8), (1i8, 0i8), (0i8, 1i8), (-1i8, 0i8)],
        PieceType::B | PieceType::PB => seq![(1i8, -1i8), (1i8, 1i8), (-1i8, 1i8), (-1i8, -1i8)],
        PieceType::L => seq![(0i8, -1i8)],
        _ => seq![],
    }
}

/// The extra single steps of the promoted rook and bishop.
pub open spec fn spec_extra_steps(t: PieceType) -> Seq<(i8, i8)> {
    match t {
        PieceType::PR => seq![(-1i8, -1i8), (1i8, -1i8), (1i8, 1i8), (-1i8, 1i8)],
        PieceType::PB => seq![(0i8, -1i8), (1i8, 0i8), (0i8, 1i8), (-1i8, 0i8)],
        _ => seq![],
    }
}

pub fn step_moves(t: PieceType) -> (r: Vec<(i8, i8)>)
    ensures
        r@ == spec_step_moves(t),
{
    match t {
        PieceType::K => vec![(-1, -1), (0, -1), (1, -1), (-1, 0), (1, 0), (-1, 1), (0, 1), (1, 1)],
        PieceType::G | PieceType::PP | PieceType::PS | PieceType::PN | PieceType::PL => vec![
            (-1, -1),
            (0, -1),
            (1, -1),
            (-1, 0),
            (1, 0),
            (0, 1),
        ],
        PieceType::S => vec![(-1, -1), (0, -1), (1, -1), (-1, 1), (1, 1)],
        PieceType::N => vec![(-1, -2), (1, -2)],
        PieceType::P => vec![(0, -1)],
        _ => vec![],
    }
}

pub fn slide_dirs(t: PieceType) -> (r: Vec<(i8, i8)>)
    ensures
        r@ == spec_slide_dirs(t),
{
    match t {
        PieceType::R | PieceType::PR => vec![(0, -1), (1, 0), (0, 1), (-1, 0)],
        PieceType::B | PieceType::PB => vec![(1, -1), (1, 1), (-1, 1), (-1, -1)],
        PieceType::L => vec![(0, -1)],
        _ => vec![],
    }
}

pub fn extra_steps(t: PieceType) -> (r: Vec<(i8, i8)>)
    ensures
        r@ == spec_extra_steps(t),
{
    match t {
        PieceType::PR => vec![(-1, -1), (1, -1), (1, 1), (-1, 1)],
        PieceType::PB => vec![(0, -1), (1, 0), (0, 1), (-1, 0)],
        _ => vec![],
    }
}

pub open spec fn spec_is_sliding_piece(t: PieceType) -> bool {
    t is R || t is PR || t is B || t is PB || t is L
}

/// Rook, dragon, bishop, horse and lance slide.
pub fn is_sliding_piece(t: PieceType) -> (r: bool)
    ensures
        r == spec_is_sliding_piece(t),
        r == (spec_slide_dirs(t).len() > 0),
{
    match t {
        PieceType::R | PieceType::PR | PieceType::B | PieceType::PB | PieceType::L => true,
        _ => false,
    }
}

} // verus!

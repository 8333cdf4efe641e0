use vstd::prelude::*;
use crate::pieces::{
    BoardPiece, Hands, Owner, PieceType, Pos, HAND_TYPES, spec_hand_idx, spec_hand_types,
    lemma_hand_types,
};
use crate::state::{State, spec_set, full_hash, pos_of, lemma_pos_of_idx, lemma_set_wf};

verus! {

broadcast use vstd::array::group_array_axioms;

/// A piece of a problem's initial position.
#[derive(Debug, Clone, Copy, PartialEq, Eq, Structural)]
pub struct PieceData {
    pub x: i8,
    pub y: i8,
    pub owner: Owner,
    pub piece_type: PieceType,
}

/// Pieces in hand of one side, by kind.
#[allow(non_snake_case)]
#[derive(Debug, Clone, Copy, Default)]
pub struct HandCount {
    pub R: u8,
    pub B: u8,
    pub G: u8,
    pub S: u8,
    pub N: u8,
    pub L: u8,
    pub P: u8,
}

#[derive(Debug, Clone, Copy)]
pub struct HandsData {
    pub attacker: HandCount,
    pub defender: HandCount,
}

/// A problem's initial position as it is stored: the pieces on the board,
/// the pieces in hand and the side to move.
#[derive(Debug, Clone)]
pub struct InitialData {
    pub pieces: Vec<PieceData>,
    pub hands: HandsData,
    pub side_to_move: Owner,
}

/// The counts in hand order R, B, G, S, N, L, P.
pub open spec fn hc_seq(h: HandCount) -> Seq<u8> {
    seq![h.R, h.B, h.G, h.S, h.N, h.L, h.P]
}

pub open spec fn hc_total(h: HandCount) -> int {
    h.R + h.B + h.G + h.S + h.N + h.L + h.P
}

impl HandCount {
    /// The counts in hand order R, B, G, S, N, L, P.
    pub fn to_array(&self) -> (r: [u8; 7])
        ensures
            r@ == hc_seq(*self),
    {
        let r = [self.R, self.B, self.G, self.S, self.N, self.L, self.P];
        assert(r@ =~= hc_seq(*self));
        r
    }

    /// The counts read from an array in hand order R, B, G, S, N, L, P.
    pub fn from_array(a: &[u8; 7]) -> (r: Self)
        ensures
            hc_seq(r) == a@,
    {
        let r = HandCount { R: a[0], B: a[1], G: a[2], S: a[3], N: a[4], L: a[5], P: a[6] };
        assert(hc_seq(r) =~= a@);
        r
    }

    /// The number of pieces in hand.
    pub fn total(&self) -> (r: u8)
        requires
            hc_total(*self) <= 255,
        ensures
            r == hc_total(*self),
    {
        self.R + self.B + self.G + self.S + self.N + self.L + self.P
    }
}

/// The number of pieces of each kind in a full set (kings aside).
pub open spec fn max_count(k: int) -> int {
    if k == 0 || k == 1 {
        2
    } else if k == 6 {
        18
    } else {
        4
    }
}

/// The square a piece stands on.
pub open spec fn piece_pos(p: PieceData) -> Pos {
    Pos { x: p.x, y: p.y }
}

/// The hand index of the unpromoted kind of a piece that is not a king.
pub open spec fn base_idx(t: PieceType) -> int {
    spec_hand_idx(t.spec_unpromote())
}

/// Pieces among the first `n` of `ps` that count as kind `k` (kings aside).
pub open spec fn kind_count(ps: Seq<PieceData>, k: int, n: nat) -> nat
    decreases n,
{
    if n == 0 || n > ps.len() {
        0
    } else {
        kind_count(ps, k, (n - 1) as nat) + if ps[n - 1].piece_type != PieceType::K && base_idx(
            ps[n - 1].piece_type,
        ) == k {
            1nat
        } else {
            0nat
        }
    }
}

/// Pieces of kind `k` in use: on the board or in the attacker's hand.
pub open spec fn used_count(d: InitialData, k: int) -> int {
    kind_count(d.pieces@, k, d.pieces@.len()) + hc_seq(d.hands.attacker)[k]
}

/// By the tsume rule the defender holds every piece not otherwise in use.
pub open spec fn defender_count(d: InitialData, k: int) -> int {
    if used_count(d, k) >= max_count(k) {
        0
    } else {
        max_count(k) - used_count(d, k)
    }
}

/// What the first `n` pieces leave on square `i`: the last of them placed there.
pub open spec fn placed(ps: Seq<PieceData>, n: nat, i: int) -> Option<BoardPiece>
    decreases n,
{
    if n == 0 || n > ps.len() {
        None
    } else if piece_pos(ps[n - 1]).spec_idx() == i {
        Some(BoardPiece { owner: ps[n - 1].owner, piece_type: ps[n - 1].piece_type })
    } else {
        placed(ps, (n - 1) as nat, i)
    }
}

/// No side has two kings in the list.
pub open spec fn kings_unique(ps: Seq<PieceData>) -> bool {
    forall|i: int, j: int|
        0 <= i < j < ps.len() && #[trigger] ps[i].piece_type == PieceType::K && #[trigger] ps[j].piece_type
            == PieceType::K ==> ps[i].owner != ps[j].owner
}

pub open spec fn has_king_before(ps: Seq<PieceData>, o: Owner, n: int) -> bool {
    exists|i: int| 0 <= i < n && #[trigger] ps[i].piece_type == PieceType::K && ps[i].owner == o
}

/// The pieces on the first `n` squares, in square order.
pub open spec fn board_pieces(s: State, n: nat) -> Seq<PieceData>
    decreases n,
{
    if n == 0 {
        seq![]
    } else {
        let prev = board_pieces(s, (n - 1) as nat);
        match s.at(n - 1) {
            Some(bp) => prev.push(
                PieceData {
                    x: pos_of(n - 1).x,
                    y: pos_of(n - 1).y,
                    owner: bp.owner,
                    piece_type: bp.piece_type,
                },
            ),
            None => prev,
        }
    }
}

impl View for InitialData {
    type V = (Seq<PieceData>, HandsData, Owner);

    open spec fn view(&self) -> (Seq<PieceData>, HandsData, Owner) {
        (self.pieces@, self.hands, self.side_to_move)
    }
}

/// The mirror image of a piece across the centre file.
pub open spec fn mirror_piece(p: PieceData) -> PieceData {
    PieceData { x: (10 - p.x) as i8, ..p }
}

fn hand_index(t: PieceType) -> (r: usize)
    requires
        t != PieceType::K,
    ensures
        r as int == base_idx(t),
        r < 7,
{
    match t.unpromote() {
        PieceType::R => 0,
        PieceType::B => 1,
        PieceType::G => 2,
        PieceType::S => 3,
        PieceType::N => 4,
        PieceType::L => 5,
        _ => 6,
    }
}

impl InitialData {
    /// Pieces of each kind in use: on the board or in the attacker's hand.
    pub(crate) fn used_counts(&self) -> (r: [u64; 7])
        requires
            self.pieces@.len() <= 0xFFFF_FFFF,
        ensures
            forall|k: int| 0 <= k < 7 ==> r@[k] == #[trigger] used_count(*self, k),
    {
        let mut used: [u64; 7] = [0; 7];
        let ghost ps = self.pieces@;
        let mut n: usize = 0;
        while n < self.pieces.len()
            invariant
                n <= ps.len(),
                ps == self.pieces@,
                ps.len() <= 0xFFFF_FFFF,
                forall|k: int| 0 <= k < 7 ==> used@[k] == #[trigger] kind_count(ps, k, n as nat),
            decreases self.pieces.len() - n,
        {
            let p = self.pieces[n];
            let ghost before = used@;
            assert forall|k: int| 0 <= k < 7 implies #[trigger] kind_count(ps, k, (n + 1) as nat) == kind_count(ps, k, n as nat) + if p.piece_type != PieceType::K && base_idx(p.piece_type) == k { 1nat } else { 0nat } by {}
            if p.piece_type != PieceType::K {
                let i = hand_index(p.piece_type);
                proof {
                    lemma_kind_count_le(ps, i as int, n as nat);
                }
                used[i] = used[i] + 1;
            }
            assert forall|k: int| 0 <= k < 7 implies used@[k] == #[trigger] kind_count(ps, k, (n + 1) as nat) by {
                assert(before[k] == kind_count(ps, k, n as nat));
            }
            n = n + 1;
        }
        let atk = self.hands.attacker.to_array();
        let mut i: usize = 0;
        while i < 7
            invariant
                i <= 7,
                ps == self.pieces@,
                ps.len() <= 0xFFFF_FFFF,
                atk@ == hc_seq(self.hands.attacker),
                forall|k: int| 0 <= k < i ==> used@[k] == #[trigger] used_count(*self, k),
                forall|k: int| i <= k < 7 ==> used@[k] == #[trigger] kind_count(ps, k, ps.len()),
            decreases 7 - i,
        {
            proof {
                lemma_kind_count_le(ps, i as int, ps.len());
            }
            used[i] = used[i] + atk[i] as u64;
            i = i + 1;
        }
        used
    }

    /// The defender's hand by the tsume rule: every piece of a full set not on
    /// the board and not in the attacker's hand.
    fn compute_defender_hand(&self) -> (r: [u8; 7])
        requires
            self.pieces@.len() <= 0xFFFF_FFFF,
        ensures
            forall|k: int| 0 <= k < 7 ==> r@[k] == #[trigger] defender_count(*self, k),
    {
        let max_counts: [u64; 7] = [2, 2, 4, 4, 4, 4, 18];
        let used = self.used_counts();
        let mut defender: [u8; 7] = [0; 7];
        let mut i: usize = 0;
        while i < 7
            invariant
                i <= 7,
                max_counts@ == seq![2u64, 2u64, 4u64, 4u64, 4u64, 4u64, 18u64],
                forall|k: int| 0 <= k < 7 ==> used@[k] == #[trigger] used_count(*self, k),
                forall|k: int| 0 <= k < i ==> defender@[k] == #[trigger] defender_count(*self, k),
            decreases 7 - i,
        {
            assert(max_counts@[i as int] == max_count(i as int));
            defender[i] = max_counts[i].saturating_sub(used[i]) as u8;
            i = i + 1;
        }
        defender
    }

    /// Whether some kind has more pieces in use than a full set holds.
    pub fn has_excess_pieces(&self) -> (r: bool)
        requires
            self.pieces@.len() <= 0xFFFF_FFFF,
        ensures
            r == exists|k: int| 0 <= k < 7 && #[trigger] used_count(*self, k) > max_count(k),
    {
        let max_counts: [u64; 7] = [2, 2, 4, 4, 4, 4, 18];
        let used = self.used_counts();
        let mut i: usize = 0;
        while i < 7
            invariant
                i <= 7,
                max_counts@ == seq![2u64, 2u64, 4u64, 4u64, 4u64, 4u64, 18u64],
                forall|k: int| 0 <= k < 7 ==> used@[k] == #[trigger] used_count(*self, k),
                forall|k: int| 0 <= k < i ==> #[trigger] used_count(*self, k) <= max_count(k),
            decreases 7 - i,
        {
            assert(max_counts@[i as int] == max_count(i as int));
            if used[i] > max_counts[i] {
                assert(used_count(*self, i as int) > max_count(i as int));
                return true;
            }
            i = i + 1;
        }
        false
    }

    /// The position: the pieces placed in list order (a later piece on the
    /// same square replaces an earlier one), the attacker's hand as given,
    /// the defender's hand by the tsume rule, the side to move, and the hash
    /// computed from scratch.
    pub fn to_state(&self) -> (r: State)
        requires
            forall|i: int| 0 <= i < self.pieces@.len() ==> #[trigger] piece_pos(self.pieces@[i]).spec_valid(),
            self.pieces@.len() <= 0xFFFF_FFFF,
        ensures
            forall|i: int| 0 <= i < 81 ==> #[trigger] r.at(i) == placed(self.pieces@, self.pieces@.len(), i),
            r.hands.attacker@ == hc_seq(self.hands.attacker),
            forall|k: int| 0 <= k < 7 ==> r.hands.defender@[k] == #[trigger] defender_count(*self, k),
            r.side_to_move == self.side_to_move,
            r.zobrist_hash == full_hash(r),
            kings_unique(self.pieces@) ==> r.wf(),
    {
        let ghost ps = self.pieces@;
        let mut state = State::new();
        let mut n: usize = 0;
        while n < self.pieces.len()
            invariant
                n <= ps.len(),
                ps == self.pieces@,
                forall|i: int| 0 <= i < ps.len() ==> #[trigger] piece_pos(ps[i]).spec_valid(),
                forall|i: int| 0 <= i < 81 ==> #[trigger] state.at(i) == placed(ps, n as nat, i),
                kings_unique(ps) ==> state.wf(),
                kings_unique(ps) ==> forall|o: Owner| !has_king_before(ps, o, n as int) ==> (
                #[trigger] state.king_cache(o)) is None,
            decreases self.pieces.len() - n,
        {
            let p = self.pieces[n];
            let pos = Pos::new(p.x, p.y);
            let piece = Some(BoardPiece { owner: p.owner, piece_type: p.piece_type });
            assert(piece_pos(ps[n as int]).spec_valid());
            proof {
                if kings_unique(ps) {
                    if p.piece_type == PieceType::K {
                        assert(!has_king_before(ps, p.owner, n as int));
                    }
                    lemma_set_wf(state, pos, piece);
                }
            }
            let ghost before = state;
            state.set(pos, piece);
            proof {
                lemma_pos_of_idx(pos);
                assert forall|i: int| 0 <= i < 81 implies #[trigger] state.at(i) == placed(ps, (n + 1) as nat, i) by {
                    if i != pos.spec_idx() {
                        assert(state.at(i) == before.at(i));
                    }
                }
                if kings_unique(ps) {
                    assert forall|o: Owner| !has_king_before(ps, o, (n + 1) as int) implies (#[trigger] state.king_cache(o)) is None by {
                        assert(!has_king_before(ps, o, n as int));
                        match before.at(pos.spec_idx()) {
                            Some(bp) => {
                                if bp.piece_type == PieceType::K && bp.owner == o {
                                    assert(before.king_cache(o) == Some(pos_of(pos.spec_idx())));
                                }
                            },
                            None => {},
                        }
                    }
                }
            }
            n = n + 1;
        }
        let ghost board_done = state;
        state.hands.attacker = self.hands.attacker.to_array();
        state.hands.defender = self.compute_defender_hand();
        state.side_to_move = self.side_to_move;
        state.zobrist_hash = state.compute_zobrist();
        proof {
            assert(state.board == board_done.board);
            assert(n == ps.len());
            assert forall|i: int| 0 <= i < 81 implies #[trigger] state.at(i) == placed(ps, ps.len(), i) by {
                assert(board_done.at(i) == placed(ps, n as nat, i));
            }
            if kings_unique(ps) {
                crate::state::lemma_wf_same(board_done, state);
            }
        }
        state
    }

    /// The initial position of a position: its pieces square by square (row
    /// 1 first, file 1 first), its hands and the side to move.
    pub fn from_state(state: &State) -> (r: Self)
        ensures
            r.pieces@ == board_pieces(*state, 81),
            hc_seq(r.hands.attacker) == state.hands.attacker@,
            hc_seq(r.hands.defender) == state.hands.defender@,
            r.side_to_move == state.side_to_move,
    {
        let mut pieces: Vec<PieceData> = Vec::new();
        let mut idx: usize = 0;
        while idx < 81
            invariant
                idx <= 81,
                pieces@ == board_pieces(*state, idx as nat),
            decreases 81 - idx,
        {
            let x = (idx % 9 + 1) as i8;
            let y = (idx / 9 + 1) as i8;
            let p = Pos::new(x, y);
            proof {
                lemma_pos_of_idx(p);
                assert(p == pos_of(idx as int));
            }
            if let Some(bp) = state.get(p) {
                pieces.push(PieceData { x, y, owner: bp.owner, piece_type: bp.piece_type });
            }
            idx = idx + 1;
        }
        InitialData {
            pieces,
            hands: HandsData {
                attacker: HandCount::from_array(&state.hands.attacker),
                defender: HandCount::from_array(&state.hands.defender),
            },
            side_to_move: state.side_to_move,
        }
    }

    /// The problem mirrored across the centre file (`x` becomes `10 - x`).
    pub fn mirror(&self) -> (r: Self)
        requires
            forall|i: int| 0 <= i < self.pieces@.len() ==> #[trigger] self.pieces@[i].x >= -117,
        ensures
            r.pieces@ == self.pieces@.map_values(|p: PieceData| mirror_piece(p)),
            r.hands == self.hands,
            r.side_to_move == self.side_to_move,
    {
        let mut pieces: Vec<PieceData> = Vec::new();
        let mut n: usize = 0;
        while n < self.pieces.len()
            invariant
                n <= self.pieces@.len(),
                forall|i: int| 0 <= i < self.pieces@.len() ==> #[trigger] self.pieces@[i].x >= -117,
                pieces@ == self.pieces@.take(n as int).map_values(|p: PieceData| mirror_piece(p)),
            decreases self.pieces.len() - n,
        {
            let p = self.pieces[n];
            assert(self.pieces@[n as int].x >= -117);
            pieces.push(PieceData { x: 10 - p.x, y: p.y, owner: p.owner, piece_type: p.piece_type });
            assert(pieces@ =~= self.pieces@.take(n + 1).map_values(|p: PieceData| mirror_piece(p)));
            n = n + 1;
        }
        assert(self.pieces@.take(self.pieces@.len() as int) =~= self.pieces@);
        InitialData { pieces, hands: self.hands, side_to_move: self.side_to_move }
    }
}

pub proof fn lemma_kind_count_le(ps: Seq<PieceData>, k: int, n: nat)
    ensures
        kind_count(ps, k, n) <= n,
    decreases n,
{
    if n > 0 {
        lemma_kind_count_le(ps, k, (n - 1) as nat);
    }
}

/// Law: mirroring twice gives back the same pieces.
pub proof fn lemma_mirror_twice(ps: Seq<PieceData>)
    requires
        forall|i: int| 0 <= i < ps.len() ==> -117 <= #[trigger] ps[i].x <= 127,
    ensures
        ps.map_values(|p: PieceData| mirror_piece(p)).map_values(|p: PieceData| mirror_piece(p)) == ps,
{
    let m2 = ps.map_values(|p: PieceData| mirror_piece(p)).map_values(|p: PieceData| mirror_piece(p));
    assert forall|i: int| 0 <= i < ps.len() implies m2[i] == ps[i] by {
        assert(-117 <= ps[i].x <= 127);
    }
    assert(m2 =~= ps);
}

pub proof fn lemma_pos_of_valid(i: int)
    requires
        0 <= i < 81,
    ensures
        pos_of(i).spec_valid(),
        pos_of(i).spec_idx() == i,
{
    assert(0 <= i % 9 < 9 && 0 <= i / 9 < 9 && (i / 9) * 9 + i % 9 == i) by (nonlinear_arith)
        requires
            0 <= i < 81,
    ;
}

/// The pieces of a position, as `from_state` lists them, stand on distinct
/// squares of the board in square order, and every occupied square is listed.
pub proof fn lemma_board_pieces(s: State, n: nat)
    requires
        n <= 81,
    ensures
        board_pieces(s, n).len() <= n,
        forall|j: int| 0 <= j < board_pieces(s, n).len() ==> #[trigger] piece_pos(board_pieces(s, n)[j]).spec_valid()
            && piece_pos(board_pieces(s, n)[j]).spec_idx() < n,
        forall|i: int, j: int| 0 <= i < j < board_pieces(s, n).len() ==> #[trigger] piece_pos(board_pieces(s, n)[i]).spec_idx()
            < #[trigger] piece_pos(board_pieces(s, n)[j]).spec_idx(),
        forall|i: int| 0 <= i < n && #[trigger] s.at(i) is Some ==> board_pieces(s, n).contains(
            PieceData {
                x: pos_of(i).x,
                y: pos_of(i).y,
                owner: s.at(i).unwrap().owner,
                piece_type: s.at(i).unwrap().piece_type,
            },
        ),
    decreases n,
{
    if n > 0 {
        lemma_board_pieces(s, (n - 1) as nat);
        lemma_pos_of_valid(n - 1);
        let prev = board_pieces(s, (n - 1) as nat);
        let cur = board_pieces(s, n);
        assert forall|i: int, j: int| 0 <= i < j < cur.len() implies #[trigger] piece_pos(cur[i]).spec_idx()
            < #[trigger] piece_pos(cur[j]).spec_idx() by {
            assert(cur[i] == prev[i]);
            if j < prev.len() {
                assert(cur[j] == prev[j]);
            } else {
                assert(piece_pos(cur[j]) == pos_of(n - 1));
                assert(piece_pos(prev[i]).spec_valid());
                assert(piece_pos(prev[i]).spec_idx() < n - 1);
            }
        }
        assert forall|i: int| 0 <= i < n && #[trigger] s.at(i) is Some implies cur.contains(
            PieceData {
                x: pos_of(i).x,
                y: pos_of(i).y,
                owner: s.at(i).unwrap().owner,
                piece_type: s.at(i).unwrap().piece_type,
            },
        ) by {
            if i < n - 1 {
                let e = PieceData {
                    x: pos_of(i).x,
                    y: pos_of(i).y,
                    owner: s.at(i).unwrap().owner,
                    piece_type: s.at(i).unwrap().piece_type,
                };
                assert(prev.contains(e));
                let q = choose|q: int| 0 <= q < prev.len() && prev[q] == e;
                assert(cur[q] == e);
            } else {
                assert(cur[cur.len() - 1] == PieceData {
                    x: pos_of(i).x,
                    y: pos_of(i).y,
                    owner: s.at(i).unwrap().owner,
                    piece_type: s.at(i).unwrap().piece_type,
                });
            }
        }
    }
}

} // verus!

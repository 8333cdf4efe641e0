use vstd::prelude::*;
use crate::pieces::{Move, Owner, PieceType, Pos};
use crate::state::{State, board_count, full_hash, hands_total};
use crate::initial::{
    HandCount, HandsData, InitialData, PieceData, hc_seq, kind_count, kings_unique, max_count, piece_pos, placed,
    used_count,
};
use crate::movegen::{no_go, spec_no_go};
use crate::attacks::spec_in_check;
use crate::legal::spec_legal_check_moves;
use crate::backward::excess;
use crate::rng::Rng;

verus! {

broadcast use vstd::seq_lib::group_filter_ensures;

/// The defender's king.
pub open spec fn is_dk(p: PieceData) -> bool {
    p.owner == Owner::Defender && p.piece_type == PieceType::K
}

/// The attacker's king.
pub open spec fn is_ak(p: PieceData) -> bool {
    p.owner == Owner::Attacker && p.piece_type == PieceType::K
}

/// The problem with the attacker's king taken off the board.
pub open spec fn stripped(d: InitialData) -> Seq<PieceData> {
    d.pieces@.filter(|p: PieceData| !is_ak(p))
}

/// Every piece stands on a square of the board.
pub open spec fn on_board(ps: Seq<PieceData>) -> bool {
    forall|i: int| 0 <= i < ps.len() ==> #[trigger] piece_pos(ps[i]).spec_valid()
}

/// The problem with the attacker's king removed (problems are set without it).
pub fn strip_attacker_king(initial: &InitialData) -> (r: InitialData)
    ensures
        r.pieces@ == stripped(*initial),
        r.hands == initial.hands,
        r.side_to_move == initial.side_to_move,
{
    let mut pieces: Vec<PieceData> = Vec::new();
    let mut i: usize = 0;
    while i < initial.pieces.len()
        invariant
            i <= initial.pieces@.len(),
            pieces@ == initial.pieces@.take(i as int).filter(|p: PieceData| !is_ak(p)),
        decreases initial.pieces.len() - i,
    {
        let p = initial.pieces[i];
        proof {
            reveal(Seq::filter);
            assert(initial.pieces@.take(i as int + 1).drop_last() =~= initial.pieces@.take(i as int));
        }
        if !(p.owner == Owner::Attacker && p.piece_type == PieceType::K) {
            pieces.push(p);
        }
        i = i + 1;
    }
    assert(initial.pieces@.take(initial.pieces@.len() as int) =~= initial.pieces@);
    InitialData { pieces, hands: initial.hands, side_to_move: initial.side_to_move }
}

/// Every element kept by a filter comes from the sequence filtered.
pub proof fn lemma_filter_sub<A>(s: Seq<A>, pred: spec_fn(A) -> bool)
    ensures
        forall|i: int| 0 <= i < s.filter(pred).len() ==> s.contains(#[trigger] s.filter(pred)[i]),
    decreases s.len(),
{
    reveal(Seq::filter);
    if s.len() > 0 {
        lemma_filter_sub(s.drop_last(), pred);
        let sub = s.drop_last().filter(pred);
        assert forall|i: int| 0 <= i < s.filter(pred).len() implies s.contains(#[trigger] s.filter(pred)[i]) by {
            if i < sub.len() {
                assert(s.filter(pred)[i] == sub[i]);
                assert(s.drop_last().contains(sub[i]));
                let j = choose|j: int| 0 <= j < s.drop_last().len() && s.drop_last()[j] == sub[i];
                assert(s[j] == sub[i]);
            } else {
                assert(s.filter(pred)[i] == s[s.len() - 1]);
            }
        }
    }
}

/// Removing the attacker's king keeps the other pieces on the board.
pub proof fn lemma_stripped_on_board(d: InitialData)
    requires
        on_board(d.pieces@),
    ensures
        on_board(stripped(d)),
        stripped(d).len() <= d.pieces@.len(),
{
    lemma_filter_sub(d.pieces@, |p: PieceData| !is_ak(p));
    let s = stripped(d);
    assert forall|i: int| 0 <= i < s.len() implies #[trigger] piece_pos(s[i]).spec_valid() by {
        assert(d.pieces@.contains(s[i]));
    }
}

/// Whether no side has two kings in `ps`.
pub fn kings_are_unique(ps: &Vec<PieceData>) -> (r: bool)
    ensures
        r == kings_unique(ps@),
{
    let mut seen_a = false;
    let mut seen_d = false;
    let mut i: usize = 0;
    while i < ps.len()
        invariant
            i <= ps@.len(),
            kings_unique(ps@.take(i as int)),
            seen_a == exists|j: int| 0 <= j < i && #[trigger] ps@[j].piece_type == PieceType::K && ps@[j].owner
                == Owner::Attacker,
            seen_d == exists|j: int| 0 <= j < i && #[trigger] ps@[j].piece_type == PieceType::K && ps@[j].owner
                == Owner::Defender,
        decreases ps.len() - i,
    {
        let p = ps[i];
        if p.piece_type == PieceType::K {
            let seen = match p.owner {
                Owner::Attacker => seen_a,
                Owner::Defender => seen_d,
            };
            if seen {
                proof {
                    let j = if p.owner == Owner::Attacker {
                        choose|j: int| 0 <= j < i && #[trigger] ps@[j].piece_type == PieceType::K
                            && ps@[j].owner == Owner::Attacker
                    } else {
                        choose|j: int| 0 <= j < i && #[trigger] ps@[j].piece_type == PieceType::K
                            && ps@[j].owner == Owner::Defender
                    };
                    assert(ps@[j].piece_type == PieceType::K && ps@[i as int].piece_type == PieceType::K);
                }
                return false;
            }
            match p.owner {
                Owner::Attacker => {
                    seen_a = true;
                },
                Owner::Defender => {
                    seen_d = true;
                },
            }
        }
        proof {
            let t = ps@.take(i as int + 1);
            assert forall|a: int, b: int|
                0 <= a < b < t.len() && #[trigger] t[a].piece_type == PieceType::K && #[trigger] t[b].piece_type
                    == PieceType::K implies t[a].owner != t[b].owner by {
                if b < i {
                    assert(ps@.take(i as int)[a] == t[a]);
                    assert(ps@.take(i as int)[b] == t[b]);
                } else {
                    assert(ps@[a].piece_type == PieceType::K);
                }
            }
        }
        i = i + 1;
    }
    assert(ps@.take(ps@.len() as int) =~= ps@);
    true
}

/// Whether the pieces in hand and on the board leave room for captures.
pub fn has_room(s: &State) -> (r: bool)
    ensures
        r == s.room(),
{
    let mut count: u32 = 0;
    let mut i: usize = 0;
    while i < 81
        invariant
            i <= 81,
            count == board_count(s.board@.take(i as int)),
            count <= i,
        decreases 81 - i,
    {
        assert(s.board@.take(i as int + 1).drop_last() =~= s.board@.take(i as int));
        if s.board[i].is_some() {
            count = count + 1;
        }
        i = i + 1;
    }
    assert(s.board@.take(81) =~= s.board@);
    let a = &s.hands.attacker;
    let d = &s.hands.defender;
    let in_hand: u32 = a[0] as u32 + a[1] as u32 + a[2] as u32 + a[3] as u32 + a[4] as u32 + a[5] as u32
        + a[6] as u32 + d[0] as u32 + d[1] as u32 + d[2] as u32 + d[3] as u32 + d[4] as u32 + d[5] as u32
        + d[6] as u32;
    let total: u32 = count + in_hand;
    total <= 255
}

/// Some piece of the problem could never move again (a pawn or lance on the
/// last row, a knight on the last two rows, for its owner).
pub open spec fn dead_end_piece(p: PieceData) -> bool {
    spec_no_go(p.owner, p.piece_type, p.y as int)
}

impl InitialData {
    /// Whether some piece could never move again.
    pub fn has_dead_end_pieces(&self) -> (r: bool)
        ensures
            r == exists|i: int| 0 <= i < self.pieces@.len() && #[trigger] dead_end_piece(self.pieces@[i]),
    {
        let mut i: usize = 0;
        while i < self.pieces.len()
            invariant
                i <= self.pieces@.len(),
                forall|j: int| 0 <= j < i ==> !#[trigger] dead_end_piece(self.pieces@[j]),
            decreases self.pieces.len() - i,
        {
            let p = self.pieces[i];
            if no_go(p.owner, p.piece_type, p.y) {
                assert(dead_end_piece(self.pieces@[i as int]));
                return true;
            }
            i = i + 1;
        }
        false
    }
}

/// Each kind, counted on the board and in both hands, stays within a full set.
pub open spec fn counts_ok(d: InitialData) -> bool {
    forall|k: int| 0 <= k < 7 ==> #[trigger] used_count(d, k) + hc_seq(d.hands.defender)[k] <= max_count(k)
}

/// Whether no kind has more pieces on the board and in hand than a full set
/// holds (promoted pieces count as their base kind, kings aside).
pub fn piece_count_valid(initial: &InitialData) -> (r: bool)
    requires
        initial.pieces@.len() <= 0xFFFF_FFFF,
    ensures
        r == counts_ok(*initial),
{
    let max_counts: [u64; 7] = [2, 2, 4, 4, 4, 4, 18];
    let used = initial.used_counts();
    let def = initial.hands.defender.to_array();
    let mut k: usize = 0;
    while k < 7
        invariant
            k <= 7,
            max_counts@ == seq![2u64, 2u64, 4u64, 4u64, 4u64, 4u64, 18u64],
            forall|j: int| 0 <= j < 7 ==> used@[j] == #[trigger] used_count(*initial, j),
            def@ == hc_seq(initial.hands.defender),
            initial.pieces@.len() <= 0xFFFF_FFFF,
            forall|j: int| 0 <= j < k ==> #[trigger] used_count(*initial, j) + hc_seq(initial.hands.defender)[j]
                <= max_count(j),
        decreases 7 - k,
    {
        assert(max_counts@[k as int] == max_count(k as int));
        assert(used@[k as int] <= 0xFFFF_FFFF + 255) by {
            crate::initial::lemma_kind_count_le(initial.pieces@, k as int, initial.pieces@.len());
            assert(used@[k as int] == used_count(*initial, k as int));
            assert(hc_seq(initial.hands.attacker)[k as int] <= 255);
        }
        if used[k] + def[k] as u64 > max_counts[k] {
            assert(!(used_count(*initial, k as int) + hc_seq(initial.hands.defender)[k as int] <= max_count(k as int)));
            return false;
        }
        k = k + 1;
    }
    true
}

/// No two pieces share a square.
pub open spec fn squares_distinct(ps: Seq<PieceData>) -> bool {
    forall|i: int, j: int| 0 <= i < j < ps.len() ==> piece_pos(#[trigger] ps[i]) != piece_pos(#[trigger] ps[j])
}

/// The defender's king is among the pieces.
pub open spec fn has_dk(ps: Seq<PieceData>) -> bool {
    exists|i: int| 0 <= i < ps.len() && #[trigger] is_dk(ps[i])
}

/// A candidate a problem can be made of: some pieces, all on the board on
/// distinct squares, the defender's king among them, piece counts within a
/// full set and no piece that could never move.
pub open spec fn basic_ok(d: InitialData) -> bool {
    pieces_ok(d.pieces@, d.hands)
}

/// `basic_ok` for the pieces `ps` and the hands `h`.
pub open spec fn pieces_ok(ps: Seq<PieceData>, h: HandsData) -> bool {
    &&& ps.len() > 0
    &&& on_board(ps)
    &&& squares_distinct(ps)
    &&& has_dk(ps)
    &&& forall|k: int| 0 <= k < 7 ==> #[trigger] kind_count(ps, k, ps.len()) + hc_seq(h.attacker)[k]
        + hc_seq(h.defender)[k] <= max_count(k)
    &&& !exists|i: int| 0 <= i < ps.len() && #[trigger] dead_end_piece(ps[i])
}

/// Whether every piece stands on the board, on its own square.
fn squares_ok(ps: &Vec<PieceData>) -> (r: bool)
    ensures
        r == (on_board(ps@) && squares_distinct(ps@)),
{
    let mut i: usize = 0;
    while i < ps.len()
        invariant
            i <= ps@.len(),
            forall|j: int| 0 <= j < i ==> #[trigger] piece_pos(ps@[j]).spec_valid(),
        decreases ps.len() - i,
    {
        let p = ps[i];
        if p.x < 1 || p.x > 9 || p.y < 1 || p.y > 9 {
            assert(!piece_pos(ps@[i as int]).spec_valid());
            return false;
        }
        i = i + 1;
    }
    let mut seen: [bool; 81] = [false; 81];
    let mut n: usize = 0;
    while n < ps.len()
        invariant
            n <= ps@.len(),
            on_board(ps@),
            forall|a: int, b: int| 0 <= a < b < n ==> piece_pos(#[trigger] ps@[a]) != piece_pos(#[trigger] ps@[b]),
            forall|q: int| 0 <= q < 81 ==> #[trigger] seen@[q] == exists|j: int| 0 <= j < n && piece_pos(ps@[j]).spec_idx() == q,
        decreases ps.len() - n,
    {
        let p = ps[n];
        let pos = Pos::new(p.x, p.y);
        assert(piece_pos(ps@[n as int]).spec_valid());
        proof {
            crate::state::lemma_pos_of_idx(pos);
        }
        let k = pos.idx();
        if seen[k] {
            proof {
                let j = choose|j: int| 0 <= j < n && piece_pos(ps@[j]).spec_idx() == k;
                assert(piece_pos(ps@[j]).spec_valid());
                crate::state::lemma_pos_of_idx(piece_pos(ps@[j]));
                assert(piece_pos(ps@[j]) == piece_pos(ps@[n as int]));
            }
            return false;
        }
        proof {
            assert forall|a: int, b: int| 0 <= a < b < n + 1 implies piece_pos(#[trigger] ps@[a]) != piece_pos(#[trigger] ps@[b]) by {
                if b == n {
                    if piece_pos(ps@[a]) == piece_pos(ps@[b]) {
                        assert(seen@[k as int]);
                    }
                }
            }
        }
        seen[k] = true;
        proof {
            assert forall|q: int| 0 <= q < 81 implies #[trigger] seen@[q] == exists|j: int| 0 <= j < n + 1 && piece_pos(ps@[j]).spec_idx() == q by {
                if q == k {
                    assert(piece_pos(ps@[n as int]).spec_idx() == q);
                } else {
                    if exists|j: int| 0 <= j < n + 1 && piece_pos(ps@[j]).spec_idx() == q {
                        let j = choose|j: int| 0 <= j < n + 1 && piece_pos(ps@[j]).spec_idx() == q;
                        assert(j < n);
                    }
                }
            }
        }
        n = n + 1;
    }
    true
}

/// Whether the defender's king is among the pieces.
pub fn find_dk(ps: &Vec<PieceData>) -> (r: Option<usize>)
    ensures
        match r {
            Some(i) => i < ps@.len() && is_dk(ps@[i as int]) && forall|j: int| 0 <= j < i ==> !#[trigger] is_dk(ps@[j]),
            None => !has_dk(ps@),
        },
{
    let mut i: usize = 0;
    while i < ps.len()
        invariant
            i <= ps@.len(),
            forall|j: int| 0 <= j < i ==> !#[trigger] is_dk(ps@[j]),
        decreases ps.len() - i,
    {
        let p = ps[i];
        if p.owner == Owner::Defender && p.piece_type == PieceType::K {
            return Some(i);
        }
        i = i + 1;
    }
    None
}

/// Whether a candidate can be made a problem of (see `basic_ok`).
pub fn basic_validity(initial: &InitialData) -> (r: bool)
    requires
        initial.pieces@.len() <= 0xFFFF_FFFF,
    ensures
        r == basic_ok(*initial),
{
    if initial.pieces.len() == 0 {
        return false;
    }
    if !squares_ok(&initial.pieces) {
        return false;
    }
    if find_dk(&initial.pieces).is_none() {
        return false;
    }
    if !piece_count_valid(initial) {
        proof {
            let k = choose|k: int| 0 <= k < 7 && !(used_count(*initial, k) + hc_seq(initial.hands.defender)[k] <= max_count(k));
            assert(used_count(*initial, k) == kind_count(initial.pieces@, k, initial.pieces@.len()) + hc_seq(initial.hands.attacker)[k]);
        }
        return false;
    }
    proof {
        assert forall|k: int| 0 <= k < 7 implies #[trigger] kind_count(initial.pieces@, k, initial.pieces@.len())
            + hc_seq(initial.hands.attacker)[k] + hc_seq(initial.hands.defender)[k] <= max_count(k) by {
            assert(used_count(*initial, k) + hc_seq(initial.hands.defender)[k] <= max_count(k));
        }
    }
    if initial.has_dead_end_pieces() {
        return false;
    }
    true
}

/// Pieces of hand kind `k` in use: in `ps` (kings aside) or in hand `h`.
pub open spec fn used_of(ps: Seq<PieceData>, h: HandCount, k: int) -> int {
    kind_count(ps, k, ps.len()) + hc_seq(h)[k]
}

/// Pieces of hand kind `k` left for the defender by the tsume rule.
pub open spec fn rest_of(ps: Seq<PieceData>, h: HandCount, k: int) -> int {
    if used_of(ps, h, k) >= max_count(k) {
        0
    } else {
        max_count(k) - used_of(ps, h, k)
    }
}

/// `s` is the position of the pieces `ps`, the attacker hand `h` (the
/// defender holding the rest) and side `side`, as `InitialData::to_state`
/// builds it, with its king squares recorded.
pub open spec fn is_state_of(ps: Seq<PieceData>, h: HandCount, side: Owner, s: State) -> bool {
    &&& forall|i: int| 0 <= i < 81 ==> #[trigger] s.at(i) == placed(ps, ps.len(), i)
    &&& s.hands.attacker@ == hc_seq(h)
    &&& forall|k: int| 0 <= k < 7 ==> s.hands.defender@[k] == #[trigger] rest_of(ps, h, k)
    &&& s.side_to_move == side
    &&& s.zobrist_hash == full_hash(s)
    &&& s.wf()
}

/// A problem has one position.
pub proof fn lemma_state_of_unique(ps: Seq<PieceData>, h: HandCount, side: Owner, a: State, b: State)
    requires
        is_state_of(ps, h, side, a),
        is_state_of(ps, h, side, b),
    ensures
        a == b,
{
    assert(a.board@ =~= b.board@) by {
        assert forall|i: int| 0 <= i < 81 implies a.board@[i] == b.board@[i] by {
            assert(a.at(i) == b.at(i));
        }
    }
    assert(a.hands.defender@ =~= b.hands.defender@) by {
        assert forall|k: int| 0 <= k < 7 implies a.hands.defender@[k] == b.hands.defender@[k] by {
            assert(a.hands.defender@[k] == rest_of(ps, h, k));
        }
    }
    assert(a.hands.attacker@ =~= b.hands.attacker@);
    assert(a.hands.attacker =~= b.hands.attacker);
    assert(a.hands.defender =~= b.hands.defender);
    assert(a.board =~= b.board);
    assert(a.hands == b.hands);
    assert(full_hash(a) == full_hash(b));
    assert forall|o: Owner| a.king_cache(o) == b.king_cache(o) by {
        match a.king_cache(o) {
            Some(p) => {
                crate::state::lemma_pos_of_idx(p);
                assert(b.at(p.spec_idx()) == crate::state::king_of(o));
            },
            None => {
                match b.king_cache(o) {
                    Some(q) => {
                        crate::state::lemma_pos_of_idx(q);
                        assert(a.at(q.spec_idx()) == crate::state::king_of(o));
                    },
                    None => {},
                }
            },
        }
    }
    crate::state::lemma_state_ext(a, b);
}

/// How many checks a candidate may have and stay worth a full search.
pub open spec fn max_checks(n: nat) -> nat {
    if 1 <= n <= 3 {
        20
    } else if n == 5 {
        15
    } else {
        10
    }
}

/// How many empty squares round the king a longer candidate may have.
pub open spec fn max_empty(n: nat) -> nat {
    if n == 5 {
        6
    } else if n == 7 {
        5
    } else {
        4
    }
}

/// The square next to `k` by `(dx, dy)` is on the board and empty.
pub open spec fn empty_next(s: State, k: Pos, dx: int, dy: int) -> bool {
    &&& 1 <= k.x + dx <= 9
    &&& 1 <= k.y + dy <= 9
    &&& s.at(crate::pieces::sq_index(k.x + dx, k.y + dy)) is None
}

pub open spec fn one_if(b: bool) -> nat {
    if b {
        1
    } else {
        0
    }
}

/// The empty squares of the board round `k`.
pub open spec fn empty_around(s: State, k: Pos) -> nat {
    one_if(empty_next(s, k, -1, -1)) + one_if(empty_next(s, k, -1, 0)) + one_if(empty_next(s, k, -1, 1))
        + one_if(empty_next(s, k, 0, -1)) + one_if(empty_next(s, k, 0, 1)) + one_if(empty_next(s, k, 1, -1))
        + one_if(empty_next(s, k, 1, 0)) + one_if(empty_next(s, k, 1, 1))
}

fn empty_at(s: &State, k: Pos, dx: i8, dy: i8) -> (r: bool)
    requires
        k.spec_valid(),
        -1 <= dx <= 1,
        -1 <= dy <= 1,
    ensures
        r == empty_next(*s, k, dx as int, dy as int),
{
    let nx = k.x + dx;
    let ny = k.y + dy;
    if 1 <= nx && nx <= 9 && 1 <= ny && ny <= 9 {
        s.get(Pos::new(nx, ny)).is_none()
    } else {
        false
    }
}

/// A position a search would most likely waste time on: no defender king,
/// the defender already in check, no check or too many checks to choose
/// from, or (from five plies on) too many empty squares round the king.
pub open spec fn reject_state(s: State, n: nat) -> bool {
    match s.king_cache(Owner::Defender) {
        None => true,
        Some(dk) => {
            ||| spec_in_check(s, Owner::Defender)
            ||| spec_legal_check_moves(s).len() == 0
            ||| spec_legal_check_moves(s).len() > max_checks(n)
            ||| n >= 5 && empty_around(s, dk) >= max_empty(n)
        },
    }
}

/// The cheap filter run before a full validation: too many pieces of a kind,
/// a position that cannot be searched (two kings of a side, or no room for
/// captures), or a position `reject_state` turns down.
pub open spec fn quick_reject_spec(d: InitialData, n: nat) -> bool {
    ||| excess(d)
    ||| !kings_unique(stripped(d))
    ||| forall|s: State|
        #[trigger] is_state_of(stripped(d), d.hands.attacker, d.side_to_move, s) ==> !s.room() || reject_state(s, n)
}

/// The problem's position: the pieces `ps`, the attacker hand `h`, the side
/// to move `side`, as `InitialData::to_state` builds it.
pub fn state_of(ps: &Vec<PieceData>, hands: HandsData, side: Owner) -> (r: State)
    requires
        on_board(ps@),
        ps@.len() <= 0xFFFF_FFFF,
        kings_unique(ps@),
    ensures
        is_state_of(ps@, hands.attacker, side, r),
{
    let d = InitialData { pieces: ps.clone(), hands, side_to_move: side };
    assert(d.pieces@ == ps@);
    let r = d.to_state();
    assert forall|k: int| 0 <= k < 7 implies r.hands.defender@[k] == #[trigger] rest_of(ps@, hands.attacker, k) by {
        assert(r.hands.defender@[k] == crate::initial::defender_count(d, k));
    }
    r
}

/// Whether the cheap filter turns candidate `initial` down for a problem of
/// `mate_length` plies (see `quick_reject_spec`).
#[verifier::rlimit(40)]
#[verifier::spinoff_prover]
pub fn quick_reject(initial: &InitialData, mate_length: u32) -> (r: bool)
    requires
        on_board(initial.pieces@),
        initial.pieces@.len() <= 0xFFFF_FFFF,
    ensures
        r == quick_reject_spec(*initial, mate_length as nat),
{
    if initial.has_excess_pieces() {
        return true;
    }
    let normalized = strip_attacker_king(initial);
    proof {
        lemma_stripped_on_board(*initial);
    }
    if !kings_are_unique(&normalized.pieces) {
        return true;
    }
    let mut state = state_of(&normalized.pieces, initial.hands, initial.side_to_move);
    let ghost s0 = state;
    proof {
        assert forall|s: State| #[trigger] is_state_of(stripped(*initial), initial.hands.attacker, initial.side_to_move, s) implies s == s0 by {
            lemma_state_of_unique(stripped(*initial), initial.hands.attacker, initial.side_to_move, s, s0);
        }
    }
    if !has_room(&state) {
        return true;
    }
    let dk = match state.king_pos(Owner::Defender) {
        Some(p) => p,
        None => return true,
    };
    if crate::attacks::is_in_check(&state, Owner::Defender) {
        return true;
    }
    let checks = crate::legal::legal_check_moves(&mut state).len();
    if checks == 0 {
        return true;
    }
    let max_checks: usize = if 1 <= mate_length && mate_length <= 3 {
        20
    } else if mate_length == 5 {
        15
    } else {
        10
    };
    if checks > max_checks {
        return true;
    }
    if mate_length >= 5 {
        proof {
            assert(s0.wf());
            crate::state::lemma_pos_of_idx(dk);
        }
        let empty_around: u32 = empty_at(&state, dk, -1, -1) as u32 + empty_at(&state, dk, -1, 0) as u32
            + empty_at(&state, dk, -1, 1) as u32 + empty_at(&state, dk, 0, -1) as u32 + empty_at(&state, dk, 0, 1) as u32
            + empty_at(&state, dk, 1, -1) as u32 + empty_at(&state, dk, 1, 0) as u32 + empty_at(&state, dk, 1, 1) as u32;
        let max_empty: u32 = if mate_length == 5 {
            6
        } else if mate_length == 7 {
            5
        } else {
            4
        };
        if empty_around >= max_empty {
            return true;
        }
    }
    false
}

/// What a validation of a candidate of `n` plies may return: below seven
/// plies the exact full-width answer (`spec_validate_tsume`); from seven
/// plies on the df-pn answer, which is nothing when the position is no
/// candidate and otherwise a line that can be replayed, is no longer than
/// `n` and leaves the defender to move and in check.
pub open spec fn auto_result_ok(s: State, n: nat, r: Option<Seq<Move>>) -> bool {
    if n >= 7 {
        &&& (!crate::dfpn::dfpn_guards(s, n) ==> r is None)
        &&& (r matches Some(line) ==> crate::dfpn::replayable(s, line) && line.len() <= n
            && crate::dfpn::ends_in_check(s, line))
    } else {
        r == crate::validate::spec_validate_tsume(s, n)
    }
}

/// Validate a problem with the solver that suits its length: df-pn in
/// stages from seven plies on, the full-width search below.
pub fn validate_tsume_auto(state: &mut State, mate_length: u32) -> (r: Option<Vec<Move>>)
    requires
        old(state).wf(),
        old(state).room(),
    ensures
        *final(state) == *old(state),
        auto_result_ok(*old(state), mate_length as nat, match r {
            Some(l) => Some(l@),
            None => None,
        }),
{
    if mate_length >= 7 {
        crate::dfpn::validate_tsume_dfpn_staged(state, mate_length)
    } else {
        crate::validate::validate_tsume_puzzle(state, mate_length)
    }
}

/// Validate a stored problem with the solver used when problems are made.
pub fn validate_tsume_for_verify(state: &mut State, mate_length: u32) -> (r: Option<Vec<Move>>)
    requires
        old(state).wf(),
        old(state).room(),
    ensures
        *final(state) == *old(state),
        auto_result_ok(*old(state), mate_length as nat, match r {
            Some(l) => Some(l@),
            None => None,
        }),
{
    validate_tsume_auto(state, mate_length)
}

/// The position after playing `line` from `s`, or nothing when some move of
/// it cannot be played there.
pub open spec fn spec_replay(s: State, line: Seq<Move>) -> Option<State>
    decreases line.len(),
{
    if line.len() == 0 {
        Some(s)
    } else if crate::state::move_ok(s, line[0]) {
        spec_replay(crate::state::spec_apply(s, line[0]), line.drop_first())
    } else {
        None
    }
}

proof fn lemma_replay_step(s: State, line: Seq<Move>, i: int, t: State)
    requires
        0 <= i < line.len(),
        spec_replay(s, line) == spec_replay(t, line.subrange(i, line.len() as int)),
        crate::state::move_ok(t, line[i]),
    ensures
        spec_replay(s, line) == spec_replay(
            crate::state::spec_apply(t, line[i]),
            line.subrange(i + 1, line.len() as int),
        ),
{
    let rest = line.subrange(i, line.len() as int);
    assert(rest[0] == line[i]);
    assert(rest.drop_first() =~= line.subrange(i + 1, line.len() as int));
}

/// Whether `m` can be played in `s` (see `move_ok`).
pub fn move_can_be_played(s: &State, m: &Move) -> (r: bool)
    ensures
        r == crate::state::move_ok(*s, *m),
{
    let owner = s.side_to_move;
    if m.to[0] < 1 || m.to[0] > 9 || m.to[1] < 1 || m.to[1] > 9 {
        return false;
    }
    match m.drop {
        Some(d) => {
            if !d.is_hand_type() {
                return false;
            }
            s.hands.get(owner, d) >= 1
        },
        None => match m.from {
            None => false,
            Some(f) => {
                if f[0] < 1 || f[0] > 9 || f[1] < 1 || f[1] > 9 {
                    return false;
                }
                if s.get(Pos::new(f[0], f[1])).is_none() {
                    return false;
                }
                match s.get(Pos::new(m.to[0], m.to[1])) {
                    Some(c) => {
                        let base = c.piece_type.unpromote();
                        base == PieceType::K || s.hands.get(owner, base) < 255
                    },
                    None => true,
                }
            },
        },
    }
}

/// Play `line` from `s` (see `spec_replay`).
pub fn replay(s: &State, line: &Vec<Move>) -> (r: Option<State>)
    ensures
        r == spec_replay(*s, line@),
{
    let mut cur = *s;
    let mut i: usize = 0;
    proof {
        assert(line@.subrange(0, line@.len() as int) =~= line@);
    }
    while i < line.len()
        invariant
            i <= line@.len(),
            spec_replay(*s, line@) == spec_replay(cur, line@.subrange(i as int, line@.len() as int)),
        decreases line.len() - i,
    {
        let m = line[i];
        if !move_can_be_played(&cur, &m) {
            proof {
                let rest = line@.subrange(i as int, line@.len() as int);
                assert(rest[0] == m);
            }
            return None;
        }
        proof {
            lemma_replay_step(*s, line@, i as int, cur);
        }
        cur = crate::state::apply_move(&cur, &m);
        i = i + 1;
    }
    proof {
        assert(line@.subrange(i as int, line@.len() as int).len() == 0);
    }
    Some(cur)
}

/// Pieces in the attacker's hand.
pub open spec fn attacker_in_hand(s: State) -> int {
    s.hands.attacker@[0] + s.hands.attacker@[1] + s.hands.attacker@[2] + s.hands.attacker@[3]
        + s.hands.attacker@[4] + s.hands.attacker@[5] + s.hands.attacker@[6]
}

fn attacker_hand_sum(s: &State) -> (r: u32)
    ensures
        r == attacker_in_hand(*s),
{
    let a = &s.hands.attacker;
    a[0] as u32 + a[1] as u32 + a[2] as u32 + a[3] as u32 + a[4] as u32 + a[5] as u32 + a[6] as u32
}

/// Pieces left over: after the solution the attacker still holds pieces in
/// hand (or the solution cannot be replayed).
pub open spec fn leftover_after(s: State, line: Seq<Move>) -> bool {
    match spec_replay(s, line) {
        Some(f) => attacker_in_hand(f) > 0,
        None => true,
    }
}

/// Every kind counts toward the pieces in the attacker's hand: the total is
/// at least what is held of each of the seven kinds, and it is zero exactly
/// when no piece of any kind is held.
pub proof fn lemma_hand_total_counts_every_kind(s: State)
    ensures
        forall|k: int| 0 <= k < 7 ==> #[trigger] s.hands.attacker@[k] <= attacker_in_hand(s),
        attacker_in_hand(s) == 0 <==> forall|k: int| 0 <= k < 7 ==> #[trigger] s.hands.attacker@[k] == 0,
{
    assert(s.hands.attacker@.len() == 7);
}

/// Pieces are left over exactly when the solution cannot be replayed or the
/// attacker, at its end, still holds a piece of some kind.
pub proof fn lemma_leftover_iff_piece_in_hand(s: State, line: Seq<Move>)
    ensures
        leftover_after(s, line) <==> match spec_replay(s, line) {
            Some(f) => exists|k: int| 0 <= k < 7 && #[trigger] f.hands.attacker@[k] > 0,
            None => true,
        },
{
    match spec_replay(s, line) {
        Some(f) => {
            lemma_hand_total_counts_every_kind(f);
        },
        None => {},
    }
}

/// Whether the attacker is left with pieces in hand at the end of `solution`.
pub fn has_leftover_pieces(initial: &InitialData, solution: &Vec<Move>) -> (r: bool)
    requires
        on_board(initial.pieces@),
        initial.pieces@.len() <= 0xFFFF_FFFF,
        kings_unique(initial.pieces@),
    ensures
        forall|s: State| #[trigger] is_state_of(initial.pieces@, initial.hands.attacker, initial.side_to_move, s)
            ==> r == leftover_after(s, solution@),
        forall|s: State| #[trigger] is_state_of(initial.pieces@, initial.hands.attacker, initial.side_to_move, s)
            ==> (r <==> match spec_replay(s, solution@) {
            Some(f) => exists|k: int| 0 <= k < 7 && #[trigger] f.hands.attacker@[k] > 0,
            None => true,
        }),
{
    let state = state_of(&initial.pieces, initial.hands, initial.side_to_move);
    proof {
        lemma_leftover_iff_piece_in_hand(state, solution@);
    }
    proof {
        assert forall|s: State| #[trigger] is_state_of(initial.pieces@, initial.hands.attacker, initial.side_to_move, s) implies s == state by {
            lemma_state_of_unique(initial.pieces@, initial.hands.attacker, initial.side_to_move, s, state);
        }
    }
    match replay(&state, solution) {
        Some(f) => attacker_hand_sum(&f) > 0,
        None => true,
    }
}

/// The number of `j < n` with `p(j)`.
pub open spec fn count_where(n: nat, p: spec_fn(int) -> bool) -> nat
    decreases n,
{
    if n == 0 {
        0
    } else {
        count_where((n - 1) as nat, p) + one_if(p(n - 1))
    }
}

pub proof fn lemma_count_where_le(n: nat, p: spec_fn(int) -> bool)
    ensures
        count_where(n, p) <= n,
    decreases n,
{
    if n > 0 {
        lemma_count_where_le((n - 1) as nat, p);
    }
}

/// Two moves go to the same square.
pub open spec fn same_square(a: Move, b: Move) -> bool {
    a.to[0] == b.to[0] && a.to[1] == b.to[1]
}

/// Counting with predicates that agree below `n` gives the same number.
pub proof fn lemma_count_where_ext(n: nat, p: spec_fn(int) -> bool, q: spec_fn(int) -> bool)
    requires
        forall|i: int| 0 <= i < n ==> #[trigger] p(i) == q(i),
    ensures
        count_where(n, p) == count_where(n, q),
    decreases n,
{
    if n > 0 {
        lemma_count_where_ext((n - 1) as nat, p, q);
    }
}

/// Sacrifices: attacker moves (even plies) answered on the same square.
pub open spec fn sacrifice_at(line: Seq<Move>) -> spec_fn(int) -> bool {
    |j: int| j % 2 == 0 && j + 1 < line.len() && same_square(line[j], line[j + 1])
}

/// The number of sacrifices in a solution: attacker moves whose square the
/// defender moves to next.
pub fn count_sacrifices(solution: &Vec<Move>) -> (r: i32)
    requires
        solution@.len() < 0x7FFF_FFFF,
    ensures
        r == count_where(solution@.len(), sacrifice_at(solution@)),
{
    let ghost p = sacrifice_at(solution@);
    let mut count: i32 = 0;
    let mut i: usize = 0;
    while i < solution.len()
        invariant
            i <= solution@.len(),
            solution@.len() < 0x7FFF_FFFF,
            p == sacrifice_at(solution@),
            count == count_where(i as nat, p),
        decreases solution.len() - i,
    {
        proof {
            lemma_count_where_le(i as nat, p);
        }
        if i % 2 == 0 && i + 1 < solution.len() && solution[i].to[0] == solution[i + 1].to[0]
            && solution[i].to[1] == solution[i + 1].to[1] {
            count = count + 1;
        }
        i = i + 1;
    }
    count
}

/// The piece kinds other than the king, in a fixed order.
pub open spec fn nonk_kinds() -> Seq<PieceType> {
    seq![
        PieceType::R,
        PieceType::B,
        PieceType::G,
        PieceType::S,
        PieceType::N,
        PieceType::L,
        PieceType::P,
        PieceType::PR,
        PieceType::PB,
        PieceType::PS,
        PieceType::PN,
        PieceType::PL,
        PieceType::PP,
    ]
}

/// The attacker has a piece of kind `t` on the board.
pub open spec fn atk_has_kind(ps: Seq<PieceData>, t: PieceType) -> bool {
    exists|i: int| 0 <= i < ps.len() && #[trigger] ps[i].owner == Owner::Attacker && ps[i].piece_type == t
}

/// The kinds (by their place in `nonk_kinds`) the attacker has on the board.
pub open spec fn atk_kind_at(ps: Seq<PieceData>) -> spec_fn(int) -> bool {
    |k: int| atk_has_kind(ps, nonk_kinds()[k])
}

/// The number of kinds (the king aside) the attacker has on the board.
pub open spec fn atk_kind_count(ps: Seq<PieceData>) -> nat {
    count_where(13, atk_kind_at(ps))
}

/// Attacker moves (even plies) that drop a piece.
pub open spec fn drop_at(line: Seq<Move>) -> spec_fn(int) -> bool {
    |j: int| j % 2 == 0 && 0 <= j < line.len() && line[j].drop is Some
}

/// Attacker moves (even plies) that promote.
pub open spec fn promote_at(line: Seq<Move>) -> spec_fn(int) -> bool {
    |j: int| j % 2 == 0 && 0 <= j < line.len() && line[j].promote
}

/// Attacker moves (even plies) to a square no earlier attacker move went to.
pub open spec fn new_target_at(line: Seq<Move>) -> spec_fn(int) -> bool {
    |j: int|
        j % 2 == 0 && 0 <= j < line.len() && forall|k: int|
            0 <= k < j && k % 2 == 0 ==> !#[trigger] same_square(line[k], line[j])
}

/// Pieces of `owner` other than the king.
pub open spec fn side_piece_at(ps: Seq<PieceData>, owner: Owner) -> spec_fn(int) -> bool {
    |i: int| 0 <= i < ps.len() && ps[i].owner == owner && ps[i].piece_type != PieceType::K
}

/// The interest score of a problem: two points a kind the attacker has on
/// the board, five a drop, three a promotion, six a sacrifice and two a
/// distinct square the attacker moves to, less one a piece beyond eight.
pub open spec fn spec_score(d: InitialData, line: Seq<Move>) -> int {
    let n = line.len();
    atk_kind_count(d.pieces@) * 2 + count_where(n, drop_at(line)) * 5 + count_where(n, promote_at(line)) * 3
        + count_where(n, sacrifice_at(line)) * 6 + count_where(n, new_target_at(line)) * 2 - (if d.pieces@.len()
        > 8 {
        d.pieces@.len() - 8
    } else {
        0
    })
}

fn nonk_kinds_exec() -> (r: [PieceType; 13])
    ensures
        r@ == nonk_kinds(),
{
    let r = [
        PieceType::R,
        PieceType::B,
        PieceType::G,
        PieceType::S,
        PieceType::N,
        PieceType::L,
        PieceType::P,
        PieceType::PR,
        PieceType::PB,
        PieceType::PS,
        PieceType::PN,
        PieceType::PL,
        PieceType::PP,
    ];
    assert(r@ =~= nonk_kinds());
    r
}

fn atk_has_kind_exec(ps: &Vec<PieceData>, t: PieceType) -> (r: bool)
    ensures
        r == atk_has_kind(ps@, t),
{
    let mut i: usize = 0;
    while i < ps.len()
        invariant
            i <= ps@.len(),
            forall|j: int| 0 <= j < i ==> !(#[trigger] ps@[j].owner == Owner::Attacker && ps@[j].piece_type == t),
        decreases ps.len() - i,
    {
        if ps[i].owner == Owner::Attacker && ps[i].piece_type == t {
            return true;
        }
        i = i + 1;
    }
    false
}

fn atk_kind_count_exec(ps: &Vec<PieceData>) -> (r: u32)
    ensures
        r == atk_kind_count(ps@),
        r <= 13,
{
    let kinds = nonk_kinds_exec();
    let ghost p = atk_kind_at(ps@);
    let mut c: u32 = 0;
    let mut k: usize = 0;
    while k < 13
        invariant
            k <= 13,
            kinds@ == nonk_kinds(),
            p == atk_kind_at(ps@),
            c == count_where(k as nat, p),
        decreases 13 - k,
    {
        proof {
            lemma_count_where_le(k as nat, p);
        }
        if atk_has_kind_exec(ps, kinds[k]) {
            c = c + 1;
        }
        k = k + 1;
    }
    proof {
        lemma_count_where_le(13, p);
    }
    c
}

/// Count the moves of `line` that `which` selects (0: drops, 1: promotions,
/// 2: first moves to a square) among the attacker's moves.
fn count_attacker_moves(line: &Vec<Move>, which: u8) -> (r: u32)
    requires
        line@.len() <= 0x100_0000,
        which < 3,
    ensures
        r == count_where(
            line@.len(),
            if which == 0 {
                drop_at(line@)
            } else if which == 1 {
                promote_at(line@)
            } else {
                new_target_at(line@)
            },
        ),
        r <= line@.len(),
{
    let ghost p = if which == 0 {
        drop_at(line@)
    } else if which == 1 {
        promote_at(line@)
    } else {
        new_target_at(line@)
    };
    let mut c: u32 = 0;
    let mut j: usize = 0;
    while j < line.len()
        invariant
            j <= line@.len(),
            line@.len() <= 0x100_0000,
            which < 3,
            p == (if which == 0 {
                drop_at(line@)
            } else if which == 1 {
                promote_at(line@)
            } else {
                new_target_at(line@)
            }),
            c == count_where(j as nat, p),
        decreases line.len() - j,
    {
        proof {
            lemma_count_where_le(j as nat, p);
        }
        if j % 2 == 0 {
            let m = line[j];
            let hit = if which == 0 {
                m.drop.is_some()
            } else if which == 1 {
                m.promote
            } else {
                let mut fresh = true;
                let mut k: usize = 0;
                while k < j
                    invariant
                        k <= j,
                        j < line@.len(),
                        m == line@[j as int],
                        fresh == forall|q: int| 0 <= q < k && q % 2 == 0 ==> !#[trigger] same_square(line@[q], line@[j as int]),
                    decreases j - k,
                {
                    if k % 2 == 0 && line[k].to[0] == m.to[0] && line[k].to[1] == m.to[1] {
                        assert(same_square(line@[k as int], line@[j as int]));
                        fresh = false;
                    } else {
                        assert(!(k % 2 == 0 && same_square(line@[k as int], line@[j as int])));
                    }
                    k = k + 1;
                }
                fresh
            };
            if hit {
                c = c + 1;
            }
        }
        j = j + 1;
    }
    proof {
        lemma_count_where_le(line@.len(), p);
    }
    c
}

/// The interest score of a problem (see `spec_score`).
pub fn score_puzzle(initial: &InitialData, solution: &Vec<Move>) -> (r: i32)
    requires
        initial.pieces@.len() <= 0x100_0000,
        solution@.len() <= 0x100_0000,
    ensures
        r == spec_score(*initial, solution@),
{
    let kinds = atk_kind_count_exec(&initial.pieces) as i64;
    let drops = count_attacker_moves(solution, 0) as i64;
    let promotes = count_attacker_moves(solution, 1) as i64;
    let targets = count_attacker_moves(solution, 2) as i64;
    let sacrifices = count_sacrifices(solution) as i64;
    proof {
        lemma_count_where_le(solution@.len(), sacrifice_at(solution@));
    }
    let n = initial.pieces.len() as i64;
    let over: i64 = if n > 8 {
        n - 8
    } else {
        0
    };
    (kinds * 2 + drops * 5 + promotes * 3 + sacrifices * 6 + targets * 2 - over) as i32
}

/// The difficulty of a problem, for ordering easy to hard: ten points a
/// piece in the attacker's hand, eight for a rook and six for a bishop in
/// hand, five a drop, three a promotion, four a sacrifice, two a defender
/// piece and one an attacker piece on the board (kings aside).
pub open spec fn spec_difficulty(d: InitialData, line: Seq<Move>) -> int {
    let h = d.hands.attacker;
    let n = line.len();
    crate::initial::hc_total(h) * 10 + (if h.R > 0 {
        8int
    } else {
        0
    }) + (if h.B > 0 {
        6int
    } else {
        0
    }) + count_where(n, drop_at(line)) * 5 + count_where(n, promote_at(line)) * 3 + count_where(
        n,
        sacrifice_at(line),
    ) * 4 + count_where(d.pieces@.len(), side_piece_at(d.pieces@, Owner::Defender)) * 2 + count_where(
        d.pieces@.len(),
        side_piece_at(d.pieces@, Owner::Attacker),
    )
}

fn count_side_pieces(ps: &Vec<PieceData>, owner: Owner) -> (r: u32)
    requires
        ps@.len() <= 0x100_0000,
    ensures
        r == count_where(ps@.len(), side_piece_at(ps@, owner)),
        r <= ps@.len(),
{
    let ghost p = side_piece_at(ps@, owner);
    let mut c: u32 = 0;
    let mut i: usize = 0;
    while i < ps.len()
        invariant
            i <= ps@.len(),
            ps@.len() <= 0x100_0000,
            p == side_piece_at(ps@, owner),
            c == count_where(i as nat, p),
        decreases ps.len() - i,
    {
        proof {
            lemma_count_where_le(i as nat, p);
        }
        if ps[i].owner == owner && ps[i].piece_type != PieceType::K {
            c = c + 1;
        }
        i = i + 1;
    }
    proof {
        lemma_count_where_le(ps@.len(), p);
    }
    c
}

/// The difficulty of a problem (see `spec_difficulty`).
pub fn difficulty_score(initial: &InitialData, solution: &Vec<Move>) -> (r: i32)
    requires
        initial.pieces@.len() <= 0x100_0000,
        solution@.len() <= 0x100_0000,
        crate::initial::hc_total(initial.hands.attacker) <= 255,
    ensures
        r == spec_difficulty(*initial, solution@),
{
    let h = &initial.hands.attacker;
    let in_hand = h.total() as i64;
    let rook: i64 = if h.R > 0 {
        8
    } else {
        0
    };
    let bishop: i64 = if h.B > 0 {
        6
    } else {
        0
    };
    let drops = count_attacker_moves(solution, 0) as i64;
    let promotes = count_attacker_moves(solution, 1) as i64;
    let sacrifices = count_sacrifices(solution) as i64;
    proof {
        lemma_count_where_le(solution@.len(), sacrifice_at(solution@));
    }
    let defenders = count_side_pieces(&initial.pieces, Owner::Defender) as i64;
    let attackers = count_side_pieces(&initial.pieces, Owner::Attacker) as i64;
    (in_hand * 10 + rook + bishop + drops * 5 + promotes * 3 + sacrifices * 4 + defenders * 2 + attackers) as i32
}

/// A copy of a problem.
pub fn copy_initial(d: &InitialData) -> (r: InitialData)
    ensures
        r.pieces@ == d.pieces@,
        r.hands == d.hands,
        r.side_to_move == d.side_to_move,
{
    InitialData { pieces: d.pieces.clone(), hands: d.hands, side_to_move: d.side_to_move }
}

/// `r` is `m` mirrored across the centre file.
pub open spec fn is_mirror_move(m: Move, r: Move) -> bool {
    &&& r.to[0] == 10 - m.to[0]
    &&& r.to[1] == m.to[1]
    &&& r.drop == m.drop
    &&& r.promote == m.promote
    &&& match m.from {
        Some(f) => r.from matches Some(g) && g[0] == 10 - f[0] && g[1] == f[1],
        None => r.from is None,
    }
}

/// Every square a move names has a file that can be mirrored.
pub open spec fn files_mirrorable(line: Seq<Move>) -> bool {
    forall|j: int|
        0 <= j < line.len() ==> #[trigger] line[j].to[0] >= -117 && (line[j].from matches Some(f) ==> f[0]
            >= -117)
}

fn mirror_move(m: &Move) -> (r: Move)
    requires
        m.to[0] >= -117,
        m.from matches Some(f) ==> f[0] >= -117,
    ensures
        is_mirror_move(*m, r),
{
    let from = match m.from {
        Some(f) => Some([10 - f[0], f[1]]),
        None => None,
    };
    Move { from, to: [10 - m.to[0], m.to[1]], drop: m.drop, promote: m.promote }
}

/// The king of the defender stands on the left half (file above 5).
pub open spec fn needs_mirror(ps: Seq<PieceData>) -> bool {
    exists|i: int|
        0 <= i < ps.len() && #[trigger] is_dk(ps[i]) && ps[i].x > 5 && forall|j: int| 0 <= j < i ==> !#[trigger] is_dk(ps[j])
}

/// Mirror a problem and its solution so that the defender's king stands on
/// the right half of the board (files 1 to 5), as problems are shown.
pub fn normalize_right(initial: InitialData, solution: Vec<Move>) -> (r: (InitialData, Vec<Move>))
    requires
        on_board(initial.pieces@),
        files_mirrorable(solution@),
    ensures
        needs_mirror(initial.pieces@) ==> r.0.pieces@ == initial.pieces@.map_values(|p: PieceData| crate::initial::mirror_piece(p))
            && r.1@.len() == solution@.len() && forall|j: int| 0 <= j < solution@.len() ==> #[trigger] is_mirror_move(solution@[j], r.1@[j]),
        !needs_mirror(initial.pieces@) ==> r.0.pieces@ == initial.pieces@ && r.1@ == solution@,
        r.0.hands == initial.hands,
        r.0.side_to_move == initial.side_to_move,
{
    let needs = match find_dk(&initial.pieces) {
        Some(i) => initial.pieces[i].x > 5,
        None => false,
    };
    if !needs {
        return (initial, solution);
    }
    proof {
        assert forall|i: int| 0 <= i < initial.pieces@.len() implies #[trigger] initial.pieces@[i].x >= -117 by {
            assert(piece_pos(initial.pieces@[i]).spec_valid());
        }
    }
    let mirrored = initial.mirror();
    let mut moves: Vec<Move> = Vec::new();
    let mut j: usize = 0;
    while j < solution.len()
        invariant
            j <= solution@.len(),
            files_mirrorable(solution@),
            moves@.len() == j,
            forall|k: int| 0 <= k < j ==> #[trigger] is_mirror_move(solution@[k], moves@[k]),
        decreases solution.len() - j,
    {
        assert(solution@[j as int].to[0] >= -117);
        let m = mirror_move(&solution[j]);
        moves.push(m);
        j = j + 1;
    }
    (mirrored, moves)
}

/// The attacker hand `h` less the pieces `rem` left over (never below zero).
pub open spec fn hand_less(h: HandCount, rem: Seq<u8>) -> Seq<u8> {
    Seq::new(7, |k: int| if hc_seq(h)[k] >= rem[k] {
        (hc_seq(h)[k] - rem[k]) as u8
    } else {
        0u8
    })
}

/// What stripping the unused hand gives for the position `s` of `d`: nothing
/// when `line` cannot be replayed; the problem and line unchanged when no
/// piece is left over; otherwise the same board with the leftover pieces
/// taken out of the attacker's hand and a line its validation accepts, or
/// nothing (below seven plies only when that problem has no room for
/// captures or does not validate).
pub open spec fn strip_result_ok(d: InitialData, line: Seq<Move>, n: nat, s: State, r: Option<(InitialData, Vec<Move>)>) -> bool {
    match spec_replay(s, line) {
        None => r is None,
        Some(f) => if attacker_in_hand(f) == 0 {
            match r {
                Some(p) => p.0.pieces@ == d.pieces@ && p.0.hands == d.hands && p.0.side_to_move == d.side_to_move && p.1@ == line,
                None => false,
            }
        } else {
            match r {
                Some(p) => {
                    &&& p.0.pieces@ == d.pieces@
                    &&& p.0.hands.defender == d.hands.defender
                    &&& p.0.side_to_move == d.side_to_move
                    &&& hc_seq(p.0.hands.attacker) == hand_less(d.hands.attacker, f.hands.attacker@)
                    &&& forall|t: State| #[trigger] is_state_of(p.0.pieces@, p.0.hands.attacker, p.0.side_to_move, t)
                        ==> auto_result_ok(t, n, Some(p.1@))
                },
                None => n < 7 ==> forall|h2: HandCount, t: State| #[trigger] is_state_of(d.pieces@, h2, d.side_to_move, t)
                    && hc_seq(h2) == hand_less(d.hands.attacker, f.hands.attacker@) && t.room()
                    ==> crate::validate::spec_validate_tsume(t, n) is None,
            }
        },
    }
}

/// Two hands with the same counts are the same hand.
proof fn lemma_hc_seq_same(a: HandCount, b: HandCount)
    requires
        hc_seq(a) == hc_seq(b),
    ensures
        a == b,
{
    assert(a.R == hc_seq(a)[0] && b.R == hc_seq(b)[0]);
    assert(a.B == hc_seq(a)[1] && b.B == hc_seq(b)[1]);
    assert(a.G == hc_seq(a)[2] && b.G == hc_seq(b)[2]);
    assert(a.S == hc_seq(a)[3] && b.S == hc_seq(b)[3]);
    assert(a.N == hc_seq(a)[4] && b.N == hc_seq(b)[4]);
    assert(a.L == hc_seq(a)[5] && b.L == hc_seq(b)[5]);
    assert(a.P == hc_seq(a)[6] && b.P == hc_seq(b)[6]);
}

/// Take out of the attacker's hand the pieces the solution leaves unused and
/// validate again (a smaller hand may change the solution). Nothing when
/// the solution cannot be replayed, or when the smaller problem cannot be
/// searched or is no longer a problem.
pub fn strip_unused_hand(initial: InitialData, solution: Vec<Move>, mate_length: u32) -> (r: Option<(InitialData, Vec<Move>)>)
    requires
        on_board(initial.pieces@),
        initial.pieces@.len() <= 0xFFFF_FFFF,
        kings_unique(initial.pieces@),
    ensures
        forall|s: State| #[trigger] is_state_of(initial.pieces@, initial.hands.attacker, initial.side_to_move, s)
            ==> strip_result_ok(initial, solution@, mate_length as nat, s, r),
{
    let state = state_of(&initial.pieces, initial.hands, initial.side_to_move);
    proof {
        assert forall|s: State| #[trigger] is_state_of(initial.pieces@, initial.hands.attacker, initial.side_to_move, s) implies s == state by {
            lemma_state_of_unique(initial.pieces@, initial.hands.attacker, initial.side_to_move, s, state);
        }
    }
    let final_state = match replay(&state, &solution) {
        Some(f) => f,
        None => return None,
    };
    if attacker_hand_sum(&final_state) == 0 {
        return Some((initial, solution));
    }
    let rem = final_state.hands.attacker;
    let mut atk = initial.hands.attacker.to_array();
    let ghost atk0 = atk@;
    let mut i: usize = 0;
    while i < 7
        invariant
            i <= 7,
            atk0 == hc_seq(initial.hands.attacker),
            atk@.len() == 7,
            forall|k: int| 0 <= k < i ==> atk@[k] == #[trigger] hand_less(initial.hands.attacker, rem@)[k],
            forall|k: int| i <= k < 7 ==> atk@[k] == #[trigger] atk0[k],
        decreases 7 - i,
    {
        atk[i] = atk[i].saturating_sub(rem[i]);
        i = i + 1;
    }
    assert(atk@ =~= hand_less(initial.hands.attacker, rem@));
    let hands = HandsData { attacker: HandCount::from_array(&atk), defender: initial.hands.defender };
    let reduced = InitialData { pieces: initial.pieces, hands, side_to_move: initial.side_to_move };
    let mut new_state = state_of(&reduced.pieces, reduced.hands, reduced.side_to_move);
    proof {
        assert forall|t: State| #[trigger] is_state_of(reduced.pieces@, reduced.hands.attacker, reduced.side_to_move, t) implies t == new_state by {
            lemma_state_of_unique(reduced.pieces@, reduced.hands.attacker, reduced.side_to_move, t, new_state);
        }
        assert forall|h2: HandCount, t: State| #[trigger] is_state_of(initial.pieces@, h2, initial.side_to_move, t)
            && hc_seq(h2) == hand_less(initial.hands.attacker, rem@) implies t == new_state by {
            lemma_hc_seq_same(h2, reduced.hands.attacker);
            lemma_state_of_unique(reduced.pieces@, reduced.hands.attacker, reduced.side_to_move, t, new_state);
        }
    }
    if !has_room(&new_state) {
        return None;
    }
    match validate_tsume_auto(&mut new_state, mate_length) {
        Some(new_sol) => Some((reduced, new_sol)),
        None => None,
    }
}

/// Whether every piece stands on a square of the board.
pub fn all_on_board(ps: &Vec<PieceData>) -> (r: bool)
    ensures
        r == on_board(ps@),
{
    let mut i: usize = 0;
    while i < ps.len()
        invariant
            i <= ps@.len(),
            forall|j: int| 0 <= j < i ==> #[trigger] piece_pos(ps@[j]).spec_valid(),
        decreases ps.len() - i,
    {
        let p = ps[i];
        if p.x < 1 || p.x > 9 || p.y < 1 || p.y > 9 {
            assert(!piece_pos(ps@[i as int]).spec_valid());
            return false;
        }
        i = i + 1;
    }
    true
}

/// A problem that can be set up and searched: its pieces on the board, no
/// side with two kings, and room for captures in its position.
pub open spec fn searchable_spec(d: InitialData) -> bool {
    &&& on_board(d.pieces@)
    &&& kings_unique(d.pieces@)
    &&& forall|s: State| #[trigger] is_state_of(d.pieces@, d.hands.attacker, d.side_to_move, s) ==> s.room()
}

/// The position of problem `d` when it can be searched (see `searchable_spec`).
pub fn searchable_state(d: &InitialData) -> (r: Option<State>)
    requires
        d.pieces@.len() <= 0xFFFF_FFFF,
    ensures
        r is Some <==> searchable_spec(*d),
        r matches Some(s) ==> is_state_of(d.pieces@, d.hands.attacker, d.side_to_move, s) && s.room() && on_board(d.pieces@)
            && kings_unique(d.pieces@),
{
    if !all_on_board(&d.pieces) {
        return None;
    }
    if !kings_are_unique(&d.pieces) {
        return None;
    }
    let s = state_of(&d.pieces, d.hands, d.side_to_move);
    proof {
        assert forall|t: State| #[trigger] is_state_of(d.pieces@, d.hands.attacker, d.side_to_move, t) implies t == s by {
            lemma_state_of_unique(d.pieces@, d.hands.attacker, d.side_to_move, t, s);
        }
    }
    if !has_room(&s) {
        return None;
    }
    Some(s)
}

/// Whether two piece lists are equal.
pub fn pieces_equal(a: &Vec<PieceData>, b: &Vec<PieceData>) -> (r: bool)
    ensures
        r == (a@ == b@),
{
    if a.len() != b.len() {
        return false;
    }
    let mut i: usize = 0;
    while i < a.len()
        invariant
            i <= a@.len(),
            a@.len() == b@.len(),
            forall|j: int| 0 <= j < i ==> a@[j] == b@[j],
        decreases a.len() - i,
    {
        if a[i] != b[i] {
            return false;
        }
        i = i + 1;
    }
    assert(a@ =~= b@);
    true
}

/// Every piece of `sub` is a piece of `ps`.
pub open spec fn pieces_within(sub: Seq<PieceData>, ps: Seq<PieceData>) -> bool {
    forall|i: int| 0 <= i < sub.len() ==> ps.contains(#[trigger] sub[i])
}

/// The validation of position `s` as a problem of `n` plies finds a line:
/// below seven plies the full-width search gives one; from seven plies on
/// the position passes the df-pn checks.
pub open spec fn validates(s: State, n: nat) -> bool {
    if n >= 7 {
        crate::dfpn::dfpn_guards(s, n)
    } else {
        crate::validate::spec_validate_tsume(s, n) is Some
    }
}

/// The position of pieces `ps`, attacker's hand `h` and `side` to move has
/// room for captures and validates as a problem of `n` plies.
pub open spec fn problem_validates(ps: Seq<PieceData>, h: HandCount, side: Owner, n: nat) -> bool {
    forall|t: State| #[trigger] is_state_of(ps, h, side, t) ==> t.room() && validates(t, n)
}

/// The pass in which pruning tries piece `p`: defender pieces in passes 0
/// to 4, attacker pieces in passes 5 to 9, farther from the middle row first.
pub open spec fn prune_pass(p: PieceData) -> int {
    (if p.owner == Owner::Defender { 0int } else { 5int }) + 4 - abs_int(p.y - 5)
}

/// Piece `j` of `ps` can be taken away: it is no king, and without it the
/// pieces still pass `basic_ok` with hands `h`, no side has two kings, and
/// the problem validates as one of `n` plies.
pub open spec fn removable(ps: Seq<PieceData>, h: HandsData, side: Owner, j: int, n: nat) -> bool {
    &&& ps[j].piece_type != PieceType::K
    &&& pieces_ok(ps.remove(j), h)
    &&& kings_unique(ps.remove(j))
    &&& problem_validates(ps.remove(j), h.attacker, side, n)
}

/// Take pieces away from a problem while it stays one: defender pieces
/// first, then pieces farther from the middle row, first in list order
/// among equals; the first piece whose removal leaves a valid problem that
/// still validates goes, and the search starts over until no piece goes.
/// Below seven plies no piece of the result could be taken away.
pub fn prune_initial(initial: &InitialData, mate_length: u32) -> (r: InitialData)
    requires
        initial.pieces@.len() <= 0xFFFF_FFFF,
    ensures
        r.hands == initial.hands,
        r.side_to_move == initial.side_to_move,
        r.pieces@.len() <= initial.pieces@.len(),
        pieces_within(r.pieces@, initial.pieces@),
        r.pieces@ != initial.pieces@ ==> basic_ok(r) && searchable_spec(r) && problem_validates(r.pieces@, r.hands.attacker, r.side_to_move, mate_length as nat),
        mate_length < 7 ==> forall|j: int| 0 <= j < r.pieces@.len() && 1 <= r.pieces@[j].y <= 9
            ==> !#[trigger] removable(r.pieces@, r.hands, r.side_to_move, j, mate_length as nat),
{
    let mut cur = copy_initial(initial);
    let mut changed = true;
    while changed
        invariant
            initial.pieces@.len() <= 0xFFFF_FFFF,
            cur.hands == initial.hands,
            cur.side_to_move == initial.side_to_move,
            cur.pieces@.len() <= initial.pieces@.len(),
            pieces_within(cur.pieces@, initial.pieces@),
            cur.pieces@ != initial.pieces@ ==> basic_ok(cur) && searchable_spec(cur) && problem_validates(cur.pieces@, cur.hands.attacker, cur.side_to_move, mate_length as nat),
            changed ==> cur.pieces@.len() <= initial.pieces@.len(),
            !changed ==> mate_length < 7 ==> forall|j: int| 0 <= j < cur.pieces@.len() && 1 <= cur.pieces@[j].y <= 9
                ==> !#[trigger] removable(cur.pieces@, cur.hands, cur.side_to_move, j, mate_length as nat),
        decreases cur.pieces@.len() + if changed { 1int } else { 0int },
    {
        changed = false;
        let mut pass: u8 = 0;
        let ghost len0 = cur.pieces@.len();
        while pass < 10 && !changed
            invariant
                pass <= 10,
                initial.pieces@.len() <= 0xFFFF_FFFF,
                cur.hands == initial.hands,
                cur.side_to_move == initial.side_to_move,
                cur.pieces@.len() <= initial.pieces@.len(),
                pieces_within(cur.pieces@, initial.pieces@),
                cur.pieces@ != initial.pieces@ ==> basic_ok(cur) && searchable_spec(cur) && problem_validates(cur.pieces@, cur.hands.attacker, cur.side_to_move, mate_length as nat),
                !changed ==> cur.pieces@.len() == len0,
                changed ==> cur.pieces@.len() < len0,
                !changed ==> mate_length < 7 ==> forall|j: int| 0 <= j < cur.pieces@.len() && 1 <= cur.pieces@[j].y <= 9
                    && prune_pass(cur.pieces@[j]) < pass
                    ==> !#[trigger] removable(cur.pieces@, cur.hands, cur.side_to_move, j, mate_length as nat),
            decreases 10 - pass,
        {
            let want_defender = pass < 5;
            let dist: i8 = 4 - (pass % 5) as i8;
            let mut i: usize = 0;
            while i < cur.pieces.len() && !changed
                invariant
                    i <= cur.pieces@.len(),
                    initial.pieces@.len() <= 0xFFFF_FFFF,
                    cur.hands == initial.hands,
                    cur.side_to_move == initial.side_to_move,
                    cur.pieces@.len() <= initial.pieces@.len(),
                    pieces_within(cur.pieces@, initial.pieces@),
                    cur.pieces@ != initial.pieces@ ==> basic_ok(cur) && searchable_spec(cur) && problem_validates(cur.pieces@, cur.hands.attacker, cur.side_to_move, mate_length as nat),
                    !changed ==> cur.pieces@.len() == len0,
                    changed ==> cur.pieces@.len() < len0,
                    pass < 10,
                    want_defender == (pass < 5),
                    dist == 4 - pass % 5,
                    !changed ==> mate_length < 7 ==> forall|j: int| 0 <= j < cur.pieces@.len() && 1 <= cur.pieces@[j].y <= 9
                        && (prune_pass(cur.pieces@[j]) < pass || (j < i && prune_pass(cur.pieces@[j]) == pass))
                        ==> !#[trigger] removable(cur.pieces@, cur.hands, cur.side_to_move, j, mate_length as nat),
                decreases cur.pieces@.len() - i + if changed { 0int } else { 1int },
            {
                let p = cur.pieces[i];
                let d5: i8 = if p.y >= 5 {
                    if p.y > 100 { 100 } else { p.y - 5 }
                } else {
                    if p.y < -100 { 100 } else { 5 - p.y }
                };
                if p.piece_type != PieceType::K && (p.owner == Owner::Defender) == want_defender && d5 == dist {
                    let mut pieces = cur.pieces.clone();
                    pieces.remove(i);
                    let cand = InitialData { pieces, hands: cur.hands, side_to_move: cur.side_to_move };
                    proof {
                        assert forall|j: int| 0 <= j < cand.pieces@.len() implies initial.pieces@.contains(#[trigger] cand.pieces@[j]) by {
                            if j < i {
                                assert(cand.pieces@[j] == cur.pieces@[j]);
                            } else {
                                assert(cand.pieces@[j] == cur.pieces@[j + 1]);
                            }
                            assert(initial.pieces@.contains(cur.pieces@[if j < i { j } else { j + 1 }]));
                        }
                    }
                    assert(cand.pieces@ == cur.pieces@.remove(i as int));
                    if basic_validity(&cand) {
                        match searchable_state(&cand) {
                            Some(st) => {
                                let mut state = st;
                                let found = validate_tsume_auto(&mut state, mate_length).is_some();
                                proof {
                                    if !found && mate_length < 7 {
                                        assert(!validates(st, mate_length as nat));
                                        assert(!problem_validates(cand.pieces@, cand.hands.attacker, cand.side_to_move, mate_length as nat));
                                    }
                                }
                                if found {
                                    proof {
                                        assert forall|t: State| #[trigger] is_state_of(cand.pieces@, cand.hands.attacker, cand.side_to_move, t)
                                            implies t.room() && validates(t, mate_length as nat) by {
                                            lemma_state_of_unique(cand.pieces@, cand.hands.attacker, cand.side_to_move, t, st);
                                        }
                                    }
                                    cur = cand;
                                    changed = true;
                                }
                            },
                            None => {
                                proof {
                                    if pieces_ok(cand.pieces@, cand.hands) && kings_unique(cand.pieces@) {
                                        let t = choose|t: State| #[trigger] is_state_of(cand.pieces@, cand.hands.attacker, cand.side_to_move, t) && !t.room();
                                        assert(!problem_validates(cand.pieces@, cand.hands.attacker, cand.side_to_move, mate_length as nat));
                                    }
                                }
                            },
                        }
                    }
                    proof {
                        if !changed && mate_length < 7 {
                            assert(!removable(cur.pieces@, cur.hands, cur.side_to_move, i as int, mate_length as nat));
                        }
                    }
                }
                proof {
                    if !changed && mate_length < 7 && 1 <= cur.pieces@[i as int].y <= 9 && prune_pass(cur.pieces@[i as int]) == pass {
                        assert(!removable(cur.pieces@, cur.hands, cur.side_to_move, i as int, mate_length as nat));
                    }
                }
                if !changed {
                    i = i + 1;
                }
            }
            pass = pass + 1;
        }
    }
    cur
}

/// The Chebyshev distance between two squares.
pub open spec fn cheb_dist(ax: int, ay: int, bx: int, by: int) -> int {
    if abs_int(ax - bx) >= abs_int(ay - by) {
        abs_int(ax - bx)
    } else {
        abs_int(ay - by)
    }
}

fn sign8(v: i8) -> (r: i8)
    ensures
        r == crate::keys::sgn(v as int),
{
    if v > 0 {
        1
    } else if v < 0 {
        -1
    } else {
        0
    }
}

fn cheb(ax: i8, ay: i8, bx: i8, by: i8) -> (r: i8)
    requires
        1 <= ax <= 9,
        1 <= ay <= 9,
        1 <= bx <= 9,
        1 <= by <= 9,
    ensures
        r == cheb_dist(ax as int, ay as int, bx as int, by as int),
        0 <= r <= 8,
{
    let ddx = if ax >= bx { ax - bx } else { bx - ax };
    let ddy = if ay >= by { ay - by } else { by - ay };
    if ddx >= ddy { ddx } else { ddy }
}

/// A piece of kind `t` slides in direction `(dx, dy)`: a rook along files
/// and rows, a bishop along diagonals, a lance straight ahead.
pub open spec fn slides_dir(t: PieceType, dx: int, dy: int) -> bool {
    match t {
        PieceType::R => (dx == 0) != (dy == 0),
        PieceType::B => dx != 0 && dy != 0,
        PieceType::L => dx == 0 && dy == -1,
        _ => false,
    }
}

fn slides_along(t: PieceType, dx: i8, dy: i8) -> (r: bool)
    ensures
        r == slides_dir(t, dx as int, dy as int),
{
    match t {
        PieceType::R => (dx == 0) != (dy == 0),
        PieceType::B => dx != 0 && dy != 0,
        PieceType::L => dx == 0 && dy == -1,
        _ => false,
    }
}

/// The squares of the pieces, in list order.
pub open spec fn squares_of(ps: Seq<PieceData>) -> Seq<(i8, i8)> {
    ps.map_values(|p: PieceData| (p.x, p.y))
}

/// By the squares `occ`, a piece other than number `idx` stands on `(x, y)`.
pub open spec fn square_taken(occ: Seq<(i8, i8)>, idx: int, x: int, y: int) -> bool {
    exists|i: int| 0 <= i < occ.len() && i != idx && #[trigger] occ[i].0 == x && occ[i].1 == y
}

/// The walk of a slider (number `idx`) from `(x, y)` on in steps of
/// `(dx, dy)` towards the king on `(kx, ky)`, with `fuel` steps left and the
/// square kept so far `best`: it stops off the board and before a taken
/// square; it keeps each square at distance four or more and stops at the
/// first square within distance four.
pub open spec fn slide_walk(
    occ: Seq<(i8, i8)>,
    idx: int,
    x: int,
    y: int,
    dx: int,
    dy: int,
    kx: int,
    ky: int,
    best: Option<(i8, i8)>,
    fuel: nat,
) -> Option<(i8, i8)>
    decreases fuel,
{
    if fuel == 0 || !(1 <= x <= 9 && 1 <= y <= 9) || square_taken(occ, idx, x, y) {
        best
    } else {
        let b = if cheb_dist(x, y, kx, ky) >= 4 { Some((x as i8, y as i8)) } else { best };
        if cheb_dist(x, y, kx, ky) <= 4 {
            b
        } else {
            slide_walk(occ, idx, x + dx, y + dy, dx, dy, kx, ky, b, (fuel - 1) as nat)
        }
    }
}

/// Piece number `j` of `ps` with the king on `(kx, ky)`: an attacker's rook,
/// bishop or lance farther than four squares from the king whose line
/// points at it is moved to the last square of its walk towards the king
/// (see `slide_walk`, over the squares the pieces stand on at first); any
/// other piece stays.
pub open spec fn slid_piece(ps: Seq<PieceData>, j: int, kx: int, ky: int) -> PieceData {
    let p = ps[j];
    let dx = crate::keys::sgn(kx - p.x);
    let dy = crate::keys::sgn(ky - p.y);
    if p.owner == Owner::Attacker && (p.piece_type == PieceType::R || p.piece_type == PieceType::B
        || p.piece_type == PieceType::L) && cheb_dist(p.x as int, p.y as int, kx, ky) > 4
        && slides_dir(p.piece_type, dx, dy) {
        match slide_walk(squares_of(ps), j, p.x + dx, p.y + dy, dx, dy, kx, ky, None, 10) {
            Some(t) => PieceData { x: t.0, y: t.1, owner: p.owner, piece_type: p.piece_type },
            None => p,
        }
    } else {
        p
    }
}

/// The pieces of a problem with its sliders brought towards the defender's
/// king (see `slid_piece`); the pieces unchanged without that king.
pub open spec fn slid(ps: Seq<PieceData>) -> Seq<PieceData> {
    if has_dk(ps) {
        Seq::new(ps.len(), |j: int| slid_piece(ps, j, dk_square(ps).0, dk_square(ps).1))
    } else {
        ps
    }
}

/// The square a slider at `(px, py)` moves to along `(dx, dy)` towards the
/// king at `(kx, ky)` (see `slide_walk`).
fn slide_target(occupied: &Vec<(i8, i8)>, idx: usize, px: i8, py: i8, dx: i8, dy: i8, kx: i8, ky: i8) -> (r: Option<(i8, i8)>)
    requires
        1 <= px <= 9,
        1 <= py <= 9,
        1 <= kx <= 9,
        1 <= ky <= 9,
        -1 <= dx <= 1,
        -1 <= dy <= 1,
    ensures
        r == slide_walk(occupied@, idx as int, px + dx, py + dy, dx as int, dy as int, kx as int, ky as int, None, 10),
        r matches Some(t) ==> 1 <= t.0 <= 9 && 1 <= t.1 <= 9,
{
    let mut best: Option<(i8, i8)> = None;
    let mut nx = px + dx;
    let mut ny = py + dy;
    let mut steps: u8 = 0;
    while steps < 10 && 1 <= nx && nx <= 9 && 1 <= ny && ny <= 9
        invariant_except_break
            steps <= 10,
            slide_walk(occupied@, idx as int, nx as int, ny as int, dx as int, dy as int, kx as int, ky as int, best, (10 - steps) as nat)
                == slide_walk(occupied@, idx as int, px + dx, py + dy, dx as int, dy as int, kx as int, ky as int, None, 10),
        invariant
            -1 <= dx <= 1,
            -1 <= dy <= 1,
            0 <= nx <= 10,
            0 <= ny <= 10,
            1 <= kx <= 9,
            1 <= ky <= 9,
            best matches Some(t) ==> 1 <= t.0 <= 9 && 1 <= t.1 <= 9,
        ensures
            best == slide_walk(occupied@, idx as int, px + dx, py + dy, dx as int, dy as int, kx as int, ky as int, None, 10),
        decreases 10 - steps,
    {
        let ghost fuel = (10 - steps) as nat;
        let mut blocked = false;
        let mut i: usize = 0;
        while i < occupied.len()
            invariant
                i <= occupied@.len(),
                blocked == exists|j: int| 0 <= j < i && j != idx && #[trigger] occupied@[j].0 == nx && occupied@[j].1 == ny,
            decreases occupied.len() - i,
        {
            if i != idx && occupied[i].0 == nx && occupied[i].1 == ny {
                blocked = true;
            }
            i = i + 1;
        }
        assert(blocked == square_taken(occupied@, idx as int, nx as int, ny as int));
        if blocked {
            break;
        }
        let dist = cheb(nx, ny, kx, ky);
        if dist >= 4 {
            best = Some((nx, ny));
        }
        if dist <= 4 {
            break;
        }
        nx = nx + dx;
        ny = ny + dy;
        steps = steps + 1;
    }
    best
}

/// The problem unchanged, with its line.
pub open spec fn kept_as_is(d: InitialData, line: Seq<Move>, rd: InitialData, rl: Seq<Move>) -> bool {
    rd.pieces@ == d.pieces@ && rd.hands == d.hands && rd.side_to_move == d.side_to_move && rl == line
}

/// The position of pieces `ps`, attacker's hand `h` and `side` to move can
/// be searched, and its validation as a problem of `n` plies accepts `rl`,
/// a line of `n` plies that leaves no pieces over.
pub open spec fn accepted_with(ps: Seq<PieceData>, h: HandCount, side: Owner, n: nat, rl: Seq<Move>) -> bool {
    &&& on_board(ps)
    &&& kings_unique(ps)
    &&& rl.len() == n
    &&& forall|t: State| #[trigger] is_state_of(ps, h, side, t)
        ==> t.room() && auto_result_ok(t, n, Some(rl)) && !leftover_after(t, rl)
}

/// What normalizing the sliders of `d` (solution `line`) gives. When no
/// slider moves (see `slid`), `d` and `line` unchanged. Otherwise the moved
/// problem with a line its validation accepts, or `d` and `line` unchanged;
/// below seven plies exactly the moved problem and its line when its
/// validation gives a line of `n` plies with no pieces left over.
pub open spec fn slider_result_ok(d: InitialData, line: Seq<Move>, n: nat, rd: InitialData, rl: Seq<Move>) -> bool {
    let ps = slid(d.pieces@);
    if ps == d.pieces@ {
        kept_as_is(d, line, rd, rl)
    } else {
        &&& (kept_as_is(d, line, rd, rl) || (rd.pieces@ == ps && rd.hands == d.hands
            && rd.side_to_move == d.side_to_move && accepted_with(ps, d.hands.attacker, d.side_to_move, n, rl)))
        &&& (n < 7 ==> forall|t: State| #[trigger] is_state_of(ps, d.hands.attacker, d.side_to_move, t)
            && on_board(ps) && kings_unique(ps) && t.room() ==> match crate::validate::spec_validate_tsume(t, n) {
                Some(l) => l.len() == n && !leftover_after(t, l) ==> rd.pieces@ == ps && rl == l,
                None => true,
            })
    }
}

/// Bring the attacker's rooks, bishops and lances that aim at the king from
/// farther than four squares to four squares from it along their line
/// (over empty squares only), then validate once more: the moved problem
/// and its new solution when it is still a problem of `mate_length` plies
/// with no pieces left over, the problem unchanged otherwise.
pub fn normalize_slider_distance(initial: InitialData, solution: Vec<Move>, mate_length: u32) -> (r: (InitialData, Vec<Move>))
    requires
        on_board(initial.pieces@),
        initial.pieces@.len() <= 0xFFFF_FFFF,
    ensures
        slider_result_ok(initial, solution@, mate_length as nat, r.0, r.1@),
{
    let ghost ps0 = initial.pieces@;
    match find_dk(&initial.pieces) {
        Some(_) => {},
        None => {
            return (initial, solution);
        },
    }
    let (kx, ky) = dk_xy(&initial.pieces);
    let mut cand = copy_initial(&initial);
    let mut any_moved = false;
    let mut occupied: Vec<(i8, i8)> = Vec::new();
    let mut i: usize = 0;
    while i < initial.pieces.len()
        invariant
            i <= initial.pieces@.len(),
            occupied@.len() == i,
            forall|j: int| 0 <= j < i ==> #[trigger] occupied@[j] == (initial.pieces@[j].x, initial.pieces@[j].y),
        decreases initial.pieces.len() - i,
    {
        occupied.push((initial.pieces[i].x, initial.pieces[i].y));
        i = i + 1;
    }
    assert(occupied@ =~= squares_of(ps0));
    let mut idx: usize = 0;
    while idx < cand.pieces.len()
        invariant
            idx <= cand.pieces@.len(),
            ps0 == initial.pieces@,
            cand.pieces@.len() == ps0.len(),
            occupied@ == squares_of(ps0),
            on_board(ps0),
            has_dk(ps0),
            (kx as int, ky as int) == dk_square(ps0),
            1 <= kx <= 9,
            1 <= ky <= 9,
            cand.hands == initial.hands,
            cand.side_to_move == initial.side_to_move,
            forall|j: int| 0 <= j < idx ==> #[trigger] cand.pieces@[j] == slid_piece(ps0, j, kx as int, ky as int),
            forall|j: int| idx <= j < cand.pieces@.len() ==> #[trigger] cand.pieces@[j] == ps0[j],
            !any_moved ==> forall|j: int| 0 <= j < idx ==> #[trigger] cand.pieces@[j] == ps0[j],
            any_moved ==> exists|j: int| 0 <= j < idx && #[trigger] cand.pieces@[j] != ps0[j],
            on_board(cand.pieces@),
        decreases cand.pieces.len() - idx,
    {
        let piece = cand.pieces[idx];
        assert(piece == ps0[idx as int]);
        assert(piece_pos(ps0[idx as int]).spec_valid());
        let px = piece.x;
        let py = piece.y;
        if piece.owner == Owner::Attacker && (piece.piece_type == PieceType::R || piece.piece_type == PieceType::B
            || piece.piece_type == PieceType::L) && cheb(px, py, kx, ky) > 4 {
            let dx = sign8(kx - px);
            let dy = sign8(ky - py);
            if slides_along(piece.piece_type, dx, dy) {
                match slide_target(&occupied, idx, px, py, dx, dy, kx, ky) {
                    Some((new_x, new_y)) => {
                        if new_x != px || new_y != py {
                            let moved = PieceData { x: new_x, y: new_y, owner: piece.owner, piece_type: piece.piece_type };
                            cand.pieces.set(idx, moved);
                            any_moved = true;
                            assert(cand.pieces@[idx as int] != ps0[idx as int]);
                        }
                    },
                    None => {},
                }
            }
        }
        assert(cand.pieces@[idx as int] == slid_piece(ps0, idx as int, kx as int, ky as int));
        idx = idx + 1;
    }
    proof {
        assert(cand.pieces@ =~= slid(ps0));
        if !any_moved {
            assert(cand.pieces@ =~= ps0);
        }
    }
    if !any_moved {
        return (initial, solution);
    }
    let mut cand_state = match searchable_state(&cand) {
        Some(st) => st,
        None => {
            proof {
                assert forall|t: State| #[trigger] is_state_of(cand.pieces@, cand.hands.attacker, cand.side_to_move, t)
                    && on_board(cand.pieces@) && kings_unique(cand.pieces@) && t.room() implies false by {
                    assert forall|u: State| #[trigger] is_state_of(cand.pieces@, cand.hands.attacker, cand.side_to_move, u)
                        implies u.room() by {
                        lemma_state_of_unique(cand.pieces@, cand.hands.attacker, cand.side_to_move, u, t);
                    }
                }
            }
            return (initial, solution);
        },
    };
    let ghost st0 = cand_state;
    proof {
        assert forall|t: State| #[trigger] is_state_of(cand.pieces@, cand.hands.attacker, cand.side_to_move, t) implies t == st0 by {
            lemma_state_of_unique(cand.pieces@, cand.hands.attacker, cand.side_to_move, t, st0);
        }
    }
    match validate_tsume_auto(&mut cand_state, mate_length) {
        Some(new_sol) => {
            if new_sol.len() == mate_length as usize && !has_leftover_pieces(&cand, &new_sol) {
                return (cand, new_sol);
            }
        },
        None => {},
    }
    (initial, solution)
}

/// Whether every file a move names can be mirrored (see `files_mirrorable`).
fn files_ok(line: &Vec<Move>) -> (r: bool)
    ensures
        r == files_mirrorable(line@),
{
    let mut j: usize = 0;
    while j < line.len()
        invariant
            j <= line@.len(),
            forall|k: int| 0 <= k < j ==> #[trigger] line@[k].to[0] >= -117 && (line@[k].from matches Some(f) ==> f[0] >= -117),
        decreases line.len() - j,
    {
        let m = line[j];
        if m.to[0] < -117 {
            return false;
        }
        match m.from {
            Some(f) => {
                if f[0] < -117 {
                    return false;
                }
            },
            None => {},
        }
        assert(line@[j as int].to[0] >= -117 && (line@[j as int].from matches Some(f) ==> f[0] >= -117));
        j = j + 1;
    }
    true
}

/// Turn a candidate into a problem: the cheap filter first, then the
/// validation of the candidate without the attacker's king (a solution of
/// exactly `mate_length` plies); up to seven plies pieces are pruned while
/// the problem stays one (the pruned problem is kept when it validates with
/// the same length); unused pieces in hand are taken out; a problem with
/// pieces left over at the end is turned down; the problem is mirrored to
/// the right half and its sliders brought closer. The problem, its
/// solution and its score.
pub fn validate_and_prune(initial: &InitialData, mate_length: u32) -> (r: Option<(InitialData, Vec<Move>, i32)>)
    requires
        on_board(initial.pieces@),
        initial.pieces@.len() <= 0xFFFF_FFFF,
        mate_length <= 0x100_0000,
    ensures
        quick_reject_spec(*initial, mate_length as nat) ==> r is None,
        r matches Some(t) ==> t.1@.len() == mate_length && t.2 == spec_score(t.0, t.1@),
        r is Some ==> on_board(stripped(*initial)) && kings_unique(stripped(*initial))
            && problem_validates(stripped(*initial), initial.hands.attacker, initial.side_to_move, mate_length as nat),
{
    if quick_reject(initial, mate_length) {
        return None;
    }
    let normalized = strip_attacker_king(initial);
    proof {
        lemma_stripped_on_board(*initial);
    }
    let mut state = match searchable_state(&normalized) {
        Some(st) => st,
        None => return None,
    };
    let ghost st0 = state;
    let solution = match validate_tsume_auto(&mut state, mate_length) {
        Some(l) => l,
        None => return None,
    };
    proof {
        assert forall|t: State| #[trigger] is_state_of(normalized.pieces@, normalized.hands.attacker, normalized.side_to_move, t)
            implies t.room() && validates(t, mate_length as nat) by {
            lemma_state_of_unique(normalized.pieces@, normalized.hands.attacker, normalized.side_to_move, t, st0);
        }
    }
    if solution.len() != mate_length as usize {
        return None;
    }
    let pruned = if mate_length <= 7 {
        prune_initial(&normalized, mate_length)
    } else {
        copy_initial(&normalized)
    };
    let pruned_changed = !pieces_equal(&pruned.pieces, &normalized.pieces);
    let (final_initial, final_solution) = if pruned_changed {
        match searchable_state(&pruned) {
            Some(st) => {
                let mut pruned_state = st;
                match validate_tsume_auto(&mut pruned_state, mate_length) {
                    Some(pruned_sol) => {
                        if pruned_sol.len() == mate_length as usize {
                            (InitialData::from_state(&pruned_state), pruned_sol)
                        } else {
                            (InitialData::from_state(&state), solution)
                        }
                    },
                    None => (InitialData::from_state(&state), solution),
                }
            },
            None => (InitialData::from_state(&state), solution),
        }
    } else {
        (InitialData::from_state(&state), solution)
    };
    if !all_on_board(&final_initial.pieces) || !kings_are_unique(&final_initial.pieces)
        || final_initial.pieces.len() > 81 {
        return None;
    }
    let (final_initial, final_solution) = match strip_unused_hand(final_initial, final_solution, mate_length) {
        Some(p) => p,
        None => return None,
    };
    if final_solution.len() != mate_length as usize {
        return None;
    }
    if !all_on_board(&final_initial.pieces) || !kings_are_unique(&final_initial.pieces)
        || final_initial.pieces.len() > 81 {
        return None;
    }
    if has_leftover_pieces(&final_initial, &final_solution) {
        return None;
    }
    if !files_ok(&final_solution) {
        return None;
    }
    let (final_initial, final_solution) = normalize_right(final_initial, final_solution);
    if !all_on_board(&final_initial.pieces) || final_initial.pieces.len() > 81 {
        return None;
    }
    let (final_initial, final_solution) = normalize_slider_distance(final_initial, final_solution, mate_length);
    let score = score_puzzle(&final_initial, &final_solution);
    Some((final_initial, final_solution, score))
}

/// The parameters of random candidates: how many attacker and defender
/// pieces (least, most) and where round the defender's king (least and most
/// file offset, least and most row offset), the chances in a million of a
/// minor piece and of a rook or bishop in the attacker's hand, and whether
/// to favour pieces that give contact checks.
pub struct CandidateParams {
    pub atk_count: (i8, i8),
    pub atk_range: (i8, i8, i8, i8),
    pub def_count: (i8, i8),
    pub def_range: (i8, i8, i8, i8),
    pub hand_per_million: u64,
    pub major_hand_per_million: u64,
    pub long_mate: bool,
}

/// The candidate parameters for problems of `n` plies: more pieces spread
/// wider and more pieces in hand for longer problems, contact-check pieces
/// from five plies on.
pub open spec fn params_for(n: nat) -> CandidateParams {
    if n == 1 {
        CandidateParams { atk_count: (1i8, 2i8), atk_range: (-2i8, 2i8, -1i8, 3i8), def_count: (0i8, 1i8), def_range: (-1i8, 1i8, -1i8, 1i8), hand_per_million: 200_000u64, major_hand_per_million: 0u64, long_mate: false }
    } else if n == 3 {
        CandidateParams { atk_count: (2i8, 3i8), atk_range: (-3i8, 3i8, -2i8, 4i8), def_count: (0i8, 2i8), def_range: (-2i8, 2i8, -1i8, 2i8), hand_per_million: 300_000u64, major_hand_per_million: 100_000u64, long_mate: false }
    } else if n == 5 {
        CandidateParams { atk_count: (2i8, 4i8), atk_range: (-3i8, 3i8, -1i8, 4i8), def_count: (1i8, 3i8), def_range: (-2i8, 2i8, -1i8, 2i8), hand_per_million: 400_000u64, major_hand_per_million: 150_000u64, long_mate: true }
    } else if n == 7 || n == 9 {
        CandidateParams { atk_count: (3i8, 5i8), atk_range: (-3i8, 3i8, -1i8, 5i8), def_count: (1i8, 3i8), def_range: (-2i8, 2i8, -1i8, 2i8), hand_per_million: 500_000u64, major_hand_per_million: 200_000u64, long_mate: true }
    } else {
        CandidateParams { atk_count: (4i8, 6i8), atk_range: (-4i8, 4i8, -2i8, 6i8), def_count: (1i8, 4i8), def_range: (-3i8, 3i8, -1i8, 3i8), hand_per_million: 500_000u64, major_hand_per_million: 250_000u64, long_mate: true }
    }
}

/// The candidate parameters for problems of `mate_length` plies (see `params_for`).
pub fn candidate_params(mate_length: u32) -> (r: CandidateParams)
    ensures
        r == params_for(mate_length as nat),
{
    match mate_length {
        1 => CandidateParams { atk_count: (1, 2), atk_range: (-2, 2, -1, 3), def_count: (0, 1), def_range: (-1, 1, -1, 1), hand_per_million: 200_000, major_hand_per_million: 0, long_mate: false },
        3 => CandidateParams { atk_count: (2, 3), atk_range: (-3, 3, -2, 4), def_count: (0, 2), def_range: (-2, 2, -1, 2), hand_per_million: 300_000, major_hand_per_million: 100_000, long_mate: false },
        5 => CandidateParams { atk_count: (2, 4), atk_range: (-3, 3, -1, 4), def_count: (1, 3), def_range: (-2, 2, -1, 2), hand_per_million: 400_000, major_hand_per_million: 150_000, long_mate: true },
        7 | 9 => CandidateParams { atk_count: (3, 5), atk_range: (-3, 3, -1, 5), def_count: (1, 3), def_range: (-2, 2, -1, 2), hand_per_million: 500_000, major_hand_per_million: 200_000, long_mate: true },
        _ => CandidateParams { atk_count: (4, 6), atk_range: (-4, 4, -2, 6), def_count: (1, 4), def_range: (-3, 3, -1, 3), hand_per_million: 500_000, major_hand_per_million: 250_000, long_mate: true },
    }
}

/// The parameters for every length can be used.
pub proof fn lemma_params_ok(n: nat)
    ensures
        params_ok(params_for(n)),
{
}

/// Parameters the candidate makers can use: counts and ranges small and in order.
pub open spec fn params_ok(p: CandidateParams) -> bool {
    &&& 0 <= p.atk_count.0 <= p.atk_count.1 <= 20
    &&& 0 <= p.def_count.0 <= p.def_count.1 <= 20
    &&& -8 <= p.atk_range.0 <= p.atk_range.1 <= 8
    &&& -8 <= p.atk_range.2 <= p.atk_range.3 <= 8
    &&& -8 <= p.def_range.0 <= p.def_range.1 <= 8
    &&& -8 <= p.def_range.2 <= p.def_range.3 <= 8
}

fn clamp9(v: i8) -> (r: i8)
    ensures
        1 <= r <= 9,
        1 <= v <= 9 ==> r == v,
        v < 1 ==> r == 1,
        v > 9 ==> r == 9,
{
    if v < 1 {
        1
    } else if v > 9 {
        9
    } else {
        v
    }
}

/// The squares marked in `used` are exactly the squares of `ps`.
pub open spec fn marks_ok(ps: Seq<PieceData>, used: Seq<bool>) -> bool {
    &&& used.len() == 81
    &&& forall|q: int| 0 <= q < 81 ==> (#[trigger] used[q] <==> exists|i: int| 0 <= i < ps.len() && piece_pos(ps[i]).spec_idx() == q)
}

/// Pieces as a random candidate has them: on the board, on distinct squares,
/// none that could never move.
pub open spec fn placed_ok(ps: Seq<PieceData>) -> bool {
    &&& on_board(ps)
    &&& squares_distinct(ps)
    &&& forall|i: int| 0 <= i < ps.len() ==> !#[trigger] dead_end_piece(ps[i])
}

/// Put `count` pieces of `owner` of kinds picked from `types` on random free
/// squares round the king `dk` (offsets from `range`), where such a piece
/// may stand; a piece that finds no square in forty tries is left out.
pub fn place_pieces_near_king(
    rng: &mut Rng,
    pieces: &mut Vec<PieceData>,
    used: &mut [bool; 81],
    dk: &PieceData,
    owner: Owner,
    count: usize,
    types: &[PieceType],
    range: (i8, i8, i8, i8),
)
    requires
        types@.len() > 0,
        piece_pos(*dk).spec_valid(),
        -8 <= range.0 <= range.1 <= 8,
        -8 <= range.2 <= range.3 <= 8,
        placed_ok(old(pieces)@),
        marks_ok(old(pieces)@, old(used)@),
        old(pieces)@.len() + count <= 0xFFFF_FFFF,
    ensures
        placed_ok(final(pieces)@),
        marks_ok(final(pieces)@, final(used)@),
        final(pieces)@.len() <= old(pieces)@.len() + count,
        final(pieces)@.len() >= old(pieces)@.len(),
        final(pieces)@.take(old(pieces)@.len() as int) == old(pieces)@,
        forall|i: int| old(pieces)@.len() <= i < final(pieces)@.len() ==> (#[trigger] final(pieces)@[i]).owner == owner
            && types@.contains(final(pieces)@[i].piece_type),
{
    let ghost start = pieces@;
    let mut n: usize = 0;
    while n < count
        invariant
            n <= count,
            types@.len() > 0,
            piece_pos(*dk).spec_valid(),
            -8 <= range.0 <= range.1 <= 8,
            -8 <= range.2 <= range.3 <= 8,
            placed_ok(pieces@),
            marks_ok(pieces@, used@),
            pieces@.len() <= start.len() + n,
            pieces@.len() >= start.len(),
            start.len() + count <= 0xFFFF_FFFF,
            pieces@.take(start.len() as int) == start,
            forall|i: int| start.len() <= i < pieces@.len() ==> (#[trigger] pieces@[i]).owner == owner && types@.contains(
                pieces@[i].piece_type,
            ),
        decreases count - n,
    {
        let t = *rng.pick(types);
        let mut x: i8 = clamp9(dk.x + rng.ri(range.0, range.1));
        let mut y: i8 = clamp9(dk.y + rng.ri(range.2, range.3));
        let mut guard: u32 = 1;
        while !((!used[Pos::new(x, y).idx()] && !no_go(owner, t, y)) || guard >= 40)
            invariant
                1 <= x <= 9,
                1 <= y <= 9,
                1 <= guard <= 40,
                piece_pos(*dk).spec_valid(),
                -8 <= range.0 <= range.1 <= 8,
                -8 <= range.2 <= range.3 <= 8,
            decreases 40 - guard,
        {
            x = clamp9(dk.x + rng.ri(range.0, range.1));
            y = clamp9(dk.y + rng.ri(range.2, range.3));
            guard = guard + 1;
        }
        let pos = Pos::new(x, y);
        proof {
            crate::state::lemma_pos_of_idx(pos);
        }
        let k = pos.idx();
        if used[k] || no_go(owner, t, y) {
            n = n + 1;
            continue;
        }
        let p = PieceData { x, y, owner, piece_type: t };
        let ghost before = pieces@;
        proof {
            assert forall|i: int| 0 <= i < before.len() implies piece_pos(#[trigger] before[i]) != piece_pos(p) by {
                if piece_pos(before[i]) == piece_pos(p) {
                    assert(used@[k as int]);
                }
            }
        }
        used[k] = true;
        pieces.push(p);
        proof {
            let ps = pieces@;
            assert(ps.take(start.len() as int) =~= start) by {
                assert(before.take(start.len() as int) == start);
                assert forall|i: int| 0 <= i < start.len() implies ps[i] == start[i] by {
                    assert(before.take(start.len() as int)[i] == start[i]);
                }
            }
            assert(forall|i: int| 0 <= i < before.len() ==> ps[i] == before[i]);
            assert forall|a: int, b: int| 0 <= a < b < ps.len() implies piece_pos(#[trigger] ps[a]) != piece_pos(#[trigger] ps[b]) by {
                if b < before.len() {
                    assert(piece_pos(before[a]) != piece_pos(before[b]));
                }
            }
            assert forall|q: int| 0 <= q < 81 implies (#[trigger] used@[q] <==> exists|i: int| 0 <= i < ps.len() && piece_pos(ps[i]).spec_idx() == q) by {
                if q == k {
                    assert(piece_pos(ps[before.len() as int]).spec_idx() == q);
                } else {
                    if exists|i: int| 0 <= i < ps.len() && piece_pos(ps[i]).spec_idx() == q {
                        let i = choose|i: int| 0 <= i < ps.len() && piece_pos(ps[i]).spec_idx() == q;
                        assert(i < before.len());
                        assert(before[i] == ps[i]);
                    } else {
                        assert forall|i: int| 0 <= i < before.len() implies piece_pos(before[i]).spec_idx() != q by {
                            assert(ps[i] == before[i]);
                        }
                    }
                }
            }
            assert(types@.contains(t));
            assert(!dead_end_piece(p));
        }
        n = n + 1;
    }
}

/// Candidates as `random_candidate` makes them: the defender's king first,
/// on rows one to three, all pieces on distinct squares of the board and
/// able to move, the attacker to move, the defender's hand empty and at most
/// one piece of a kind in the attacker's hand.
pub open spec fn random_candidate_ok(d: InitialData) -> bool {
    &&& d.pieces@.len() > 0
    &&& is_dk(d.pieces@[0])
    &&& 1 <= d.pieces@[0].y <= 3
    &&& placed_ok(d.pieces@)
    &&& d.side_to_move == Owner::Attacker
    &&& hc_seq(d.hands.defender) == seq![0u8, 0u8, 0u8, 0u8, 0u8, 0u8, 0u8]
    &&& small_hand(d.hands.attacker)
}

/// At most one piece of each kind.
pub open spec fn small_hand(h: HandCount) -> bool {
    h.R <= 1 && h.B <= 1 && h.G <= 1 && h.S <= 1 && h.N <= 1 && h.L <= 1 && h.P <= 1
}

/// A hand with no pieces.
pub fn empty_hand() -> (r: HandCount)
    ensures
        hc_seq(r) == seq![0u8, 0u8, 0u8, 0u8, 0u8, 0u8, 0u8],
{
    let r = HandCount { R: 0, B: 0, G: 0, S: 0, N: 0, L: 0, P: 0 };
    assert(hc_seq(r) =~= seq![0u8, 0u8, 0u8, 0u8, 0u8, 0u8, 0u8]);
    r
}

/// One piece of kind `t` in the attacker's hand.
fn add_hand_piece(hands: &mut HandsData, t: PieceType)
    requires
        small_hand(old(hands).attacker),
    ensures
        small_hand(final(hands).attacker),
        final(hands).defender == old(hands).defender,
{
    match t {
        PieceType::P => hands.attacker.P = 1,
        PieceType::S => hands.attacker.S = 1,
        PieceType::G => hands.attacker.G = 1,
        PieceType::N => hands.attacker.N = 1,
        PieceType::L => hands.attacker.L = 1,
        PieceType::R => hands.attacker.R = 1,
        PieceType::B => hands.attacker.B = 1,
        _ => {},
    }
}

/// A random candidate: the defender's king near an edge (files 1, 2, 8 or 9
/// six times in ten, else 3 to 7) on rows one to three, attacker and
/// defender pieces round it as `params` say, and maybe a minor piece and a
/// rook or bishop in the attacker's hand.
pub fn random_candidate(rng: &mut Rng, params: &CandidateParams) -> (r: Option<InitialData>)
    requires
        params_ok(*params),
    ensures
        r matches Some(d) && random_candidate_ok(d) && d.pieces@.len() <= 41,
{
    let mut pieces: Vec<PieceData> = Vec::new();
    let mut used: [bool; 81] = [false; 81];
    let edge: [i8; 4] = [1, 2, 8, 9];
    let dk_x = if crate::backward::chance(rng, 600_000) {
        *rng.pick(&edge)
    } else {
        rng.ri(3, 7)
    };
    let dk_y = rng.ri(1, 3);
    let dk = PieceData { x: dk_x, y: dk_y, owner: Owner::Defender, piece_type: PieceType::K };
    let pos = Pos::new(dk_x, dk_y);
    proof {
        crate::state::lemma_pos_of_idx(pos);
    }
    used[pos.idx()] = true;
    pieces.push(dk);
    proof {
        assert(pieces@ =~= seq![dk]);
        assert forall|q: int| 0 <= q < 81 implies (#[trigger] used@[q] <==> exists|i: int| 0 <= i < pieces@.len() && piece_pos(pieces@[i]).spec_idx() == q) by {
            if q == pos.spec_idx() {
                assert(piece_pos(pieces@[0]).spec_idx() == q);
            }
        }
        assert(!dead_end_piece(dk));
    }
    let atk_count = rng.ri(params.atk_count.0, params.atk_count.1) as usize;
    let atk_types_long: [PieceType; 10] = [
        PieceType::G,
        PieceType::S,
        PieceType::G,
        PieceType::S,
        PieceType::N,
        PieceType::P,
        PieceType::L,
        PieceType::G,
        PieceType::S,
        PieceType::R,
    ];
    let atk_types: [PieceType; 9] = [
        PieceType::R,
        PieceType::B,
        PieceType::G,
        PieceType::S,
        PieceType::N,
        PieceType::L,
        PieceType::P,
        PieceType::G,
        PieceType::S,
    ];
    if params.long_mate {
        place_pieces_near_king(rng, &mut pieces, &mut used, &dk, Owner::Attacker, atk_count, &atk_types_long, params.atk_range);
    } else {
        place_pieces_near_king(rng, &mut pieces, &mut used, &dk, Owner::Attacker, atk_count, &atk_types, params.atk_range);
    }
    let ghost after_atk = pieces@;
    assert(after_atk.take(1)[0] == dk);
    let def_count = rng.ri(params.def_count.0, params.def_count.1) as usize;
    let def_types: [PieceType; 9] = [
        PieceType::G,
        PieceType::S,
        PieceType::P,
        PieceType::N,
        PieceType::L,
        PieceType::G,
        PieceType::S,
        PieceType::R,
        PieceType::B,
    ];
    place_pieces_near_king(rng, &mut pieces, &mut used, &dk, Owner::Defender, def_count, &def_types, params.def_range);
    proof {
        assert(after_atk.take(1)[0] == dk);
        assert(pieces@.take(after_atk.len() as int)[0] == after_atk[0]);
        assert(pieces@[0] == dk);
    }
    let mut hands = HandsData { attacker: empty_hand(), defender: empty_hand() };
    assert(hc_seq(hands.defender) =~= seq![0u8, 0u8, 0u8, 0u8, 0u8, 0u8, 0u8]);
    let minor: [PieceType; 5] = [PieceType::P, PieceType::S, PieceType::G, PieceType::N, PieceType::L];
    let major: [PieceType; 2] = [PieceType::R, PieceType::B];
    if crate::backward::chance(rng, params.hand_per_million) {
        let t = *rng.pick(&minor);
        add_hand_piece(&mut hands, t);
    }
    if crate::backward::chance(rng, params.major_hand_per_million) {
        let t = *rng.pick(&major);
        add_hand_piece(&mut hands, t);
    }
    Some(InitialData { pieces, hands, side_to_move: Owner::Attacker })
}

/// The indices of the pieces other than kings, in order.
fn non_king_indices(ps: &Vec<PieceData>) -> (r: Vec<usize>)
    ensures
        forall|j: int| 0 <= j < r@.len() ==> #[trigger] r@[j] < ps@.len() && ps@[r@[j] as int].piece_type != PieceType::K,
        r@.len() <= ps@.len(),
{
    let mut r: Vec<usize> = Vec::new();
    let mut i: usize = 0;
    while i < ps.len()
        invariant
            i <= ps@.len(),
            r@.len() <= i,
            forall|j: int| 0 <= j < r@.len() ==> #[trigger] r@[j] < ps@.len() && ps@[r@[j] as int].piece_type != PieceType::K,
        decreases ps.len() - i,
    {
        if ps[i].piece_type != PieceType::K {
            r.push(i);
        }
        i = i + 1;
    }
    r
}

/// Set the count of kind `t` in a hand to `v` (kinds that are not hand kinds
/// leave it as it is).
fn set_hand_count(hc: &mut HandCount, t: PieceType, v: u8) {
    match t {
        PieceType::R => hc.R = v,
        PieceType::B => hc.B = v,
        PieceType::G => hc.G = v,
        PieceType::S => hc.S = v,
        PieceType::N => hc.N = v,
        PieceType::L => hc.L = v,
        PieceType::P => hc.P = v,
        _ => {},
    }
}

/// A random variation of a problem: move a piece by one or two squares each
/// way (three times in seven), change the kind of a piece, add a piece near
/// the defender's king (taking a random one away beyond ten pieces), take a
/// piece away (when more than two can go), or set one kind in the attacker's
/// hand to none or one; then every piece is pulled back onto the board. The
/// variation when it is a valid candidate (`basic_ok`).
pub fn mutate_initial(rng: &mut Rng, seed: &InitialData) -> (r: Option<InitialData>)
    requires
        coords_shiftable(seed.pieces@),
        seed.pieces@.len() <= 0xFFFF_FF00,
    ensures
        r matches Some(d) ==> basic_ok(d) && d.hands.defender == seed.hands.defender && d.side_to_move == seed.side_to_move
            && d.pieces@.len() <= seed.pieces@.len() + 1,
{
    let mut cand = copy_initial(seed);
    let ops: [u8; 7] = [0, 0, 0, 1, 2, 3, 4];
    let op = *rng.pick(&ops);
    let kinds: [PieceType; 7] = [
        PieceType::R,
        PieceType::B,
        PieceType::G,
        PieceType::S,
        PieceType::N,
        PieceType::L,
        PieceType::P,
    ];
    if op == 0 {
        let movable = non_king_indices(&cand.pieces);
        if movable.len() == 0 {
            return None;
        }
        let idx = *rng.pick(movable.as_slice());
        let deltas: [i8; 4] = [-2, -1, 1, 2];
        let p = cand.pieces[idx];
        assert(coord_shiftable(seed.pieces@[idx as int]));
        let dx = *rng.pick(&deltas);
        let dy = *rng.pick(&deltas);
        cand.pieces.set(idx, PieceData { x: p.x + dx, y: p.y + dy, ..p });
    } else if op == 1 {
        let movable = non_king_indices(&cand.pieces);
        if movable.len() == 0 {
            return None;
        }
        let idx = *rng.pick(movable.as_slice());
        let t = *rng.pick(&kinds);
        let p = cand.pieces[idx];
        cand.pieces.set(idx, PieceData { piece_type: t, ..p });
    } else if op == 2 {
        let owners: [Owner; 2] = [Owner::Attacker, Owner::Defender];
        let owner = *rng.pick(&owners);
        let t = *rng.pick(&kinds);
        match find_dk(&cand.pieces) {
            Some(k) => {
                let dk = cand.pieces[k];
                assert(coord_shiftable(seed.pieces@[k as int]));
                let x = clamp9(dk.x + rng.ri(-3, 3));
                let y = clamp9(dk.y + rng.ri(-2, 4));
                cand.pieces.push(PieceData { x, y, owner, piece_type: t });
            },
            None => {},
        }
        if cand.pieces.len() > 10 {
            let removable = non_king_indices(&cand.pieces);
            if removable.len() > 0 {
                let idx = *rng.pick(removable.as_slice());
                cand.pieces.remove(idx);
            }
        }
    } else if op == 3 {
        let removable = non_king_indices(&cand.pieces);
        if removable.len() > 2 {
            let idx = *rng.pick(removable.as_slice());
            cand.pieces.remove(idx);
        }
    } else {
        let t = *rng.pick(&crate::pieces::HAND_TYPES);
        let v = rng.ri(0, 1) as u8;
        set_hand_count(&mut cand.hands.attacker, t, v);
    }
    let mut i: usize = 0;
    while i < cand.pieces.len()
        invariant
            i <= cand.pieces@.len(),
            cand.pieces@.len() <= seed.pieces@.len() + 1,
            seed.pieces@.len() <= 0xFFFF_FF00,
            cand.hands.defender == seed.hands.defender,
            cand.side_to_move == seed.side_to_move,
        decreases cand.pieces.len() - i,
    {
        let p = cand.pieces[i];
        cand.pieces.set(i, PieceData { x: clamp9(p.x), y: clamp9(p.y), ..p });
        i = i + 1;
    }
    if basic_validity(&cand) {
        Some(cand)
    } else {
        None
    }
}

/// A piece whose coordinates can be shifted by a few squares without leaving
/// the range of `i8` (a mutation moves a piece by up to two squares, and
/// places a new one up to four squares from the king).
pub open spec fn coord_shiftable(p: PieceData) -> bool {
    -124 <= p.x <= 123 && -124 <= p.y <= 123
}

/// Every piece is `coord_shiftable` (every piece on the board is).
pub open spec fn coords_shiftable(ps: Seq<PieceData>) -> bool {
    forall|i: int| 0 <= i < ps.len() ==> #[trigger] coord_shiftable(ps[i])
}

/// The square of the first defender king, or 5-2 when there is none.
pub open spec fn dk_square(ps: Seq<PieceData>) -> (int, int) {
    if has_dk(ps) {
        let i = choose|i: int| 0 <= i < ps.len() && is_dk(ps[i]) && forall|j: int| 0 <= j < i ==> !#[trigger] is_dk(ps[j]);
        (ps[i].x as int, ps[i].y as int)
    } else {
        (5, 2)
    }
}

pub open spec fn abs_int(v: int) -> int {
    if v < 0 {
        -v
    } else {
        v
    }
}

/// The sum of the distances (file plus row) from `(kx, ky)` of the first
/// `n` pieces that are attacker pieces other than the king.
pub open spec fn atk_rel_sum(ps: Seq<PieceData>, kx: int, ky: int, n: nat) -> int
    decreases n,
{
    if n == 0 || n > ps.len() {
        0
    } else {
        atk_rel_sum(ps, kx, ky, (n - 1) as nat) + if ps[n - 1].owner == Owner::Attacker && ps[n - 1].piece_type
            != PieceType::K {
            abs_int(ps[n - 1].x - kx) + abs_int(ps[n - 1].y - ky)
        } else {
            0
        }
    }
}

/// The features of a problem used to tell problems apart: which kinds the
/// attacker has on the board and in hand (six each), whether the solution
/// drops, promotes and sacrifices (four each), the number of pieces and of
/// defender pieces, the king's region (five a third of the board) and
/// square, the attacker pieces' distance from it, and where the first move
/// goes relative to it (three a square).
pub open spec fn features_spec(d: InitialData, line: Seq<Move>) -> Seq<i32> {
    let ps = d.pieces@;
    let h = d.hands.attacker;
    let k = dk_square(ps);
    let n = line.len();
    seq![
        (one_if(atk_has_kind(ps, PieceType::R)) * 6) as i32, (one_if(atk_has_kind(ps, PieceType::B)) * 6) as i32,
        (one_if(atk_has_kind(ps, PieceType::G)) * 6) as i32, (one_if(atk_has_kind(ps, PieceType::S)) * 6) as i32,
        (one_if(atk_has_kind(ps, PieceType::N)) * 6) as i32, (one_if(atk_has_kind(ps, PieceType::L)) * 6) as i32,
        (one_if(atk_has_kind(ps, PieceType::P)) * 6) as i32,
        (one_if(h.R > 0) * 6) as i32, (one_if(h.B > 0) * 6) as i32, (one_if(h.G > 0) * 6) as i32,
        (one_if(h.S > 0) * 6) as i32, (one_if(h.N > 0) * 6) as i32, (one_if(h.L > 0) * 6) as i32,
        (one_if(h.P > 0) * 6) as i32,
        (one_if(count_where(n, drop_at(line)) > 0) * 4) as i32,
        (one_if(count_where(n, promote_at(line)) > 0) * 4) as i32,
        (one_if(count_where(n, sacrifice_at(line)) > 0) * 4) as i32,
        ps.len() as i32, count_where(ps.len(), side_piece_at(ps, Owner::Defender)) as i32,
        (((k.0 - 1) / 3) * 5) as i32, (((k.1 - 1) / 3) * 5) as i32, k.0 as i32, k.1 as i32,
        atk_rel_sum(ps, k.0, k.1, ps.len()) as i32,
        ((if n > 0 { line[0].to[0] - k.0 } else { 0 }) * 3) as i32,
        ((if n > 0 { line[0].to[1] - k.1 } else { 0 }) * 3) as i32,
    ]
}

/// The square of the first defender king, or 5-2 (see `dk_square`).
pub(crate) fn dk_xy(ps: &Vec<PieceData>) -> (r: (i8, i8))
    requires
        on_board(ps@),
    ensures
        (r.0 as int, r.1 as int) == dk_square(ps@),
        1 <= r.0 <= 9,
        1 <= r.1 <= 9,
{
    match find_dk(ps) {
        Some(i) => {
            proof {
                let c = choose|c: int| 0 <= c < ps@.len() && is_dk(ps@[c]) && forall|j: int| 0 <= j < c ==> !#[trigger] is_dk(ps@[j]);
                if c < i {
                    assert(!is_dk(ps@[c]));
                } else if c > i {
                    assert(!is_dk(ps@[i as int]));
                }
                assert(piece_pos(ps@[i as int]).spec_valid());
            }
            (ps[i].x, ps[i].y)
        },
        None => (5, 2),
    }
}

fn rel_sum_exec(ps: &Vec<PieceData>, kx: i8, ky: i8) -> (r: i32)
    requires
        on_board(ps@),
        ps@.len() <= 0x10000,
        1 <= kx <= 9,
        1 <= ky <= 9,
    ensures
        r == atk_rel_sum(ps@, kx as int, ky as int, ps@.len()),
        0 <= r <= 16 * ps@.len(),
{
    let mut rel: i32 = 0;
    let mut i: usize = 0;
    while i < ps.len()
        invariant
            i <= ps@.len(),
            ps@.len() <= 0x10000,
            on_board(ps@),
            1 <= kx <= 9,
            1 <= ky <= 9,
            rel == atk_rel_sum(ps@, kx as int, ky as int, i as nat),
            0 <= rel <= 16 * i,
        decreases ps.len() - i,
    {
        let p = ps[i];
        assert(piece_pos(ps@[i as int]).spec_valid());
        if p.owner == Owner::Attacker && p.piece_type != PieceType::K {
            let ddx: i32 = if p.x >= kx { (p.x - kx) as i32 } else { (kx - p.x) as i32 };
            let ddy: i32 = if p.y >= ky { (p.y - ky) as i32 } else { (ky - p.y) as i32 };
            rel = rel + ddx + ddy;
        }
        i = i + 1;
    }
    rel
}

/// The features computed one by one are the features of the problem.
#[verifier::rlimit(100)]
#[verifier::spinoff_prover]
proof fn lemma_features(d: InitialData, line: Seq<Move>, v: Seq<i32>, kx: int, ky: int)
    requires
        dk_square(d.pieces@) == (kx, ky),
        v.len() == 26,
        v[0] == (one_if(atk_has_kind(d.pieces@, PieceType::R)) * 6) as i32,
        v[1] == (one_if(atk_has_kind(d.pieces@, PieceType::B)) * 6) as i32,
        v[2] == (one_if(atk_has_kind(d.pieces@, PieceType::G)) * 6) as i32,
        v[3] == (one_if(atk_has_kind(d.pieces@, PieceType::S)) * 6) as i32,
        v[4] == (one_if(atk_has_kind(d.pieces@, PieceType::N)) * 6) as i32,
        v[5] == (one_if(atk_has_kind(d.pieces@, PieceType::L)) * 6) as i32,
        v[6] == (one_if(atk_has_kind(d.pieces@, PieceType::P)) * 6) as i32,
        v[7] == (one_if(d.hands.attacker.R > 0) * 6) as i32,
        v[8] == (one_if(d.hands.attacker.B > 0) * 6) as i32,
        v[9] == (one_if(d.hands.attacker.G > 0) * 6) as i32,
        v[10] == (one_if(d.hands.attacker.S > 0) * 6) as i32,
        v[11] == (one_if(d.hands.attacker.N > 0) * 6) as i32,
        v[12] == (one_if(d.hands.attacker.L > 0) * 6) as i32,
        v[13] == (one_if(d.hands.attacker.P > 0) * 6) as i32,
        v[14] == (one_if(count_where(line.len(), drop_at(line)) > 0) * 4) as i32,
        v[15] == (one_if(count_where(line.len(), promote_at(line)) > 0) * 4) as i32,
        v[16] == (one_if(count_where(line.len(), sacrifice_at(line)) > 0) * 4) as i32,
        v[17] == d.pieces@.len() as i32,
        v[18] == count_where(d.pieces@.len(), side_piece_at(d.pieces@, Owner::Defender)) as i32,
        v[19] == (((kx - 1) / 3) * 5) as i32,
        v[20] == (((ky - 1) / 3) * 5) as i32,
        v[21] == kx as i32,
        v[22] == ky as i32,
        v[23] == atk_rel_sum(d.pieces@, kx, ky, d.pieces@.len()) as i32,
        v[24] == ((if line.len() > 0 { line[0].to[0] - kx } else { 0 }) * 3) as i32,
        v[25] == ((if line.len() > 0 { line[0].to[1] - ky } else { 0 }) * 3) as i32,
    ensures
        v == features_spec(d, line),
{
    let f = features_spec(d, line);
    assert(f.len() == 26);
    assert forall|i: int| 0 <= i < 26 implies v[i] == f[i] by {
        if i < 13 {
            if i < 7 {
            } else {
            }
        } else {
            if i < 20 {
            } else {
            }
        }
    }
    assert(v =~= f);
}

fn one_i32(b: bool) -> (r: i32)
    ensures
        r == one_if(b),
{
    if b {
        1
    } else {
        0
    }
}

/// The features of a problem (see `features_spec`).
#[verifier::rlimit(100)]
#[verifier::spinoff_prover]
pub fn puzzle_features(init: &InitialData, sol: &Vec<Move>) -> (r: Vec<i32>)
    requires
        on_board(init.pieces@),
        init.pieces@.len() <= 0x10000,
        sol@.len() <= 0x100_0000,
    ensures
        r@ == features_spec(*init, sol@),
        r@.len() == 26,
{
    let ps = &init.pieces;
    let (kx, ky) = dk_xy(ps);
    let h = &init.hands.attacker;
    let drops = count_attacker_moves(sol, 0);
    let promotes = count_attacker_moves(sol, 1);
    let sacrifices = count_sacrifices(sol);
    let defenders = count_side_pieces(ps, Owner::Defender);
    let rel = rel_sum_exec(ps, kx, ky);
    let (tx, ty): (i32, i32) = if sol.len() > 0 {
        ((sol[0].to[0] as i32 - kx as i32) * 3, (sol[0].to[1] as i32 - ky as i32) * 3)
    } else {
        (0, 0)
    };
    let v0 = one_i32(atk_has_kind_exec(ps, PieceType::R)) * 6;
    let v1 = one_i32(atk_has_kind_exec(ps, PieceType::B)) * 6;
    let v2 = one_i32(atk_has_kind_exec(ps, PieceType::G)) * 6;
    let v3 = one_i32(atk_has_kind_exec(ps, PieceType::S)) * 6;
    let v4 = one_i32(atk_has_kind_exec(ps, PieceType::N)) * 6;
    let v5 = one_i32(atk_has_kind_exec(ps, PieceType::L)) * 6;
    let v6 = one_i32(atk_has_kind_exec(ps, PieceType::P)) * 6;
    let v7 = one_i32(h.R > 0) * 6;
    let v8 = one_i32(h.B > 0) * 6;
    let v9 = one_i32(h.G > 0) * 6;
    let v10 = one_i32(h.S > 0) * 6;
    let v11 = one_i32(h.N > 0) * 6;
    let v12 = one_i32(h.L > 0) * 6;
    let v13 = one_i32(h.P > 0) * 6;
    let v14 = one_i32(drops > 0) * 4;
    let v15 = one_i32(promotes > 0) * 4;
    let v16 = one_i32(sacrifices > 0) * 4;
    let v17 = ps.len() as i32;
    let v18 = defenders as i32;
    let v19 = ((kx - 1) / 3) as i32 * 5;
    let v20 = ((ky - 1) / 3) as i32 * 5;
    let v21 = kx as i32;
    let v22 = ky as i32;
    let r = vec![v0, v1, v2, v3, v4, v5, v6, v7, v8, v9, v10, v11, v12, v13, v14, v15, v16, v17, v18, v19, v20, v21, v22, rel, tx, ty];
    proof {
        assert(dk_square(ps@) == (kx as int, ky as int));
        assert(r@ == seq![v0, v1, v2, v3, v4, v5, v6, v7, v8, v9, v10, v11, v12, v13, v14, v15, v16, v17, v18, v19, v20, v21, v22, rel, tx, ty]);
        lemma_features(*init, sol@, r@, kx as int, ky as int);

    }
    r
}

/// Features that can be compared without overflow: at most 256 of them.
pub open spec fn features_ok(f: Seq<i32>) -> bool {
    f.len() <= 0x100
}

/// The sum of the differences of the first `n` features.
pub open spec fn fdist(a: Seq<i32>, b: Seq<i32>, n: int) -> int
    decreases n,
{
    if n <= 0 {
        0
    } else {
        fdist(a, b, n - 1) + abs_int(a[n - 1] - b[n - 1])
    }
}

/// The distance of two feature lists: the sum of the differences of the
/// features both have.
pub open spec fn feature_dist(a: Seq<i32>, b: Seq<i32>) -> int {
    fdist(a, b, if a.len() <= b.len() { a.len() as int } else { b.len() as int })
}

/// The distance of two feature lists (see `feature_dist`).
pub fn feature_distance(a: &Vec<i32>, b: &Vec<i32>) -> (r: i64)
    requires
        features_ok(a@),
        features_ok(b@),
    ensures
        r == feature_dist(a@, b@),
        r >= 0,
{
    let n = if a.len() <= b.len() { a.len() } else { b.len() };
    let mut sum: i64 = 0;
    let mut i: usize = 0;
    while i < n
        invariant
            i <= n,
            n <= a@.len(),
            n <= b@.len(),
            n <= 0x100,
            sum == fdist(a@, b@, i as int),
            0 <= sum <= 0x1_0000_0000 * i,
        decreases n - i,
    {
        let x = a[i] as i64;
        let y = b[i] as i64;
        let d = if x >= y { x - y } else { y - x };
        sum = sum + d;
        i = i + 1;
    }
    sum
}

/// Whether `x` is in `v`.
fn vec_contains(v: &Vec<usize>, x: usize) -> (r: bool)
    ensures
        r == v@.contains(x),
{
    let mut i: usize = 0;
    while i < v.len()
        invariant
            i <= v@.len(),
            forall|j: int| 0 <= j < i ==> v@[j] != x,
        decreases v.len() - i,
    {
        if v[i] == x {
            return true;
        }
        i = i + 1;
    }
    false
}

/// A list without repeats inside another without repeats is no longer.
proof fn lemma_distinct_within_len(a: Seq<usize>, b: Seq<usize>)
    requires
        a.no_duplicates(),
        b.no_duplicates(),
        forall|x: usize| a.contains(x) ==> b.contains(x),
    ensures
        a.len() <= b.len(),
{
    a.unique_seq_to_set();
    b.unique_seq_to_set();
    vstd::seq_lib::seq_to_set_is_finite(b);
    assert(a.to_set().subset_of(b.to_set()));
    vstd::set_lib::lemma_len_subset(a.to_set(), b.to_set());
}

/// `x` is the first index of `indices` (in their order), among those not
/// in `taken`, whose features are farthest from those of `last`.
pub open spec fn picked_first(indices: Seq<usize>, features: Seq<Vec<i32>>, taken: Seq<usize>, last: usize, x: usize) -> bool {
    exists|j: int|
        0 <= j < indices.len() && #[trigger] indices[j] == x && forall|k: int|
            0 <= k < j && !taken.contains(indices[k]) ==> feature_dist(features[last as int]@, #[trigger] features[indices[k] as int]@)
                < feature_dist(features[last as int]@, features[x as int]@)
}

/// Order `indices` so that each problem differs most from the one before:
/// the first stays first, then each time the index (among those not yet
/// taken, the first in `indices` order on a tie) whose features are
/// farthest from the last one taken.
pub fn diversify_within(indices: &Vec<usize>, features: &Vec<Vec<i32>>) -> (r: Vec<usize>)
    requires
        forall|j: int| 0 <= j < indices@.len() ==> #[trigger] indices@[j] < features@.len(),
        forall|i: int| 0 <= i < features@.len() ==> features_ok(#[trigger] features@[i]@),
    ensures
        r@.no_duplicates(),
        forall|j: int| 0 <= j < r@.len() ==> indices@.contains(#[trigger] r@[j]),
        indices@.len() > 0 ==> r@.len() > 0 && r@[0] == indices@[0],
        indices@.no_duplicates() ==> r@.len() == indices@.len(),
        forall|p: int, q: usize|
            #![trigger r@[p], indices@.contains(q)]
            1 <= p < r@.len() && indices@.contains(q) && !r@.take(p).contains(q) ==> feature_dist(
                features@[r@[p - 1] as int]@,
                features@[q as int]@,
            ) <= feature_dist(features@[r@[p - 1] as int]@, features@[r@[p] as int]@),
        forall|p: int| 1 <= p < r@.len() ==> #[trigger] picked_first(indices@, features@, r@.take(p), r@[p - 1], r@[p]),
{
    let mut ordered: Vec<usize> = Vec::new();
    if indices.len() == 0 {
        return ordered;
    }
    ordered.push(indices[0]);
    proof {
        assert(indices@.contains(indices@[0]));
    }
    while ordered.len() < indices.len()
        invariant
            forall|j: int| 0 <= j < indices@.len() ==> #[trigger] indices@[j] < features@.len(),
            forall|i: int| 0 <= i < features@.len() ==> features_ok(#[trigger] features@[i]@),
            ordered@.len() > 0,
            ordered@[0] == indices@[0],
            ordered@.no_duplicates(),
            forall|j: int| 0 <= j < ordered@.len() ==> indices@.contains(#[trigger] ordered@[j]),
            ordered@.len() <= indices@.len(),
            forall|p: int, q: usize|
                #![trigger ordered@[p], indices@.contains(q)]
            1 <= p < ordered@.len() && indices@.contains(q) && !ordered@.take(p).contains(q) ==> feature_dist(
                    features@[ordered@[p - 1] as int]@,
                    features@[q as int]@,
                ) <= feature_dist(features@[ordered@[p - 1] as int]@, features@[ordered@[p] as int]@),
            forall|p: int| 1 <= p < ordered@.len() ==> #[trigger] picked_first(indices@, features@, ordered@.take(p), ordered@[p - 1], ordered@[p]),
        ensures
            indices@.no_duplicates() ==> ordered@.len() == indices@.len(),
        decreases indices@.len() - ordered@.len(),
    {
        let last = ordered[ordered.len() - 1];
        proof {
            assert(indices@.contains(ordered@[ordered@.len() - 1]));
        }
        let mut best: Option<usize> = None;
        let mut best_dist: i64 = -1;
        let mut j: usize = 0;
        while j < indices.len()
            invariant
                j <= indices@.len(),
                last < features@.len(),
                forall|k: int| 0 <= k < indices@.len() ==> #[trigger] indices@[k] < features@.len(),
                forall|i: int| 0 <= i < features@.len() ==> features_ok(#[trigger] features@[i]@),
                best is None <==> best_dist == -1,
                best matches Some(b) ==> indices@.contains(b) && !ordered@.contains(b) && best_dist == feature_dist(
                    features@[last as int]@,
                    features@[b as int]@,
                ) && picked_first(indices@, features@, ordered@, last, b),
                forall|k: int|
                    0 <= k < j && !ordered@.contains(#[trigger] indices@[k]) ==> feature_dist(
                        features@[last as int]@,
                        features@[indices@[k] as int]@,
                    ) <= best_dist,
                best is None ==> forall|k: int| 0 <= k < j ==> ordered@.contains(#[trigger] indices@[k]),
            decreases indices.len() - j,
        {
            let i = indices[j];
            if !vec_contains(&ordered, i) {
                let d = feature_distance(&features[last], &features[i]);
                if d > best_dist {
                    proof {
                        assert forall|k: int| 0 <= k < j && !ordered@.contains(indices@[k]) implies feature_dist(features@[last as int]@, #[trigger] features@[indices@[k] as int]@)
                            < feature_dist(features@[last as int]@, features@[i as int]@) by {
                            assert(!ordered@.contains(indices@[k]));
                        }
                        assert(indices@[j as int] == i);
                    }
                    best_dist = d;
                    best = Some(i);
                }
                proof {
                    assert(indices@.contains(i));
                }
            }
            j = j + 1;
        }
        match best {
            Some(b) => {
                let ghost before = ordered@;
                ordered.push(b);
                proof {
                    assert(ordered@.take(before.len() as int) =~= before);
                    assert forall|x: int, y: int| 0 <= x < y < ordered@.len() implies ordered@[x] != ordered@[y] by {
                        if y == before.len() {
                            assert(before.contains(before[x]));
                        }
                    }
                    assert forall|p: int| 1 <= p < ordered@.len() implies #[trigger] picked_first(indices@, features@, ordered@.take(p), ordered@[p - 1], ordered@[p]) by {
                        if p < before.len() {
                            assert(ordered@.take(p) =~= before.take(p));
                            assert(ordered@[p] == before[p]);
                            assert(ordered@[p - 1] == before[p - 1]);
                            assert(picked_first(indices@, features@, before.take(p), before[p - 1], before[p]));
                        } else {
                            assert(ordered@.take(p) =~= before);
                            assert(ordered@[p - 1] == last);
                        }
                    }
                    assert forall|p: int, q: usize|
                        #![trigger ordered@[p], indices@.contains(q)]
                        1 <= p < ordered@.len() && indices@.contains(q) && !ordered@.take(p).contains(q) implies feature_dist(
                            features@[ordered@[p - 1] as int]@,
                            features@[q as int]@,
                        ) <= feature_dist(features@[ordered@[p - 1] as int]@, features@[ordered@[p] as int]@) by {
                        if p < before.len() {
                            assert(ordered@.take(p) =~= before.take(p));
                            assert(ordered@[p] == before[p]);
                            assert(ordered@[p - 1] == before[p - 1]);
                        } else {
                            assert(ordered@.take(p) =~= before);
                            assert(ordered@.take(p) =~= before);
                            let k = choose|k: int| 0 <= k < indices@.len() && indices@[k] == q;
                            assert(!before.contains(indices@[k]));
                        }
                    }
                }
            },
            None => {
                proof {
                    if indices@.no_duplicates() {
                        assert forall|x: usize| indices@.contains(x) implies ordered@.contains(x) by {
                            let k = choose|k: int| 0 <= k < indices@.len() && indices@[k] == x;
                            assert(ordered@.contains(indices@[k]));
                        }
                        lemma_distinct_within_len(indices@, ordered@);
                    }
                }
                break;
            },
        }
    }
    ordered
}

/// A problem entry that can be scored and ordered: pieces on the board, not
/// too many pieces or plies, at most 255 pieces in the attacker's hand.
pub open spec fn entry_ok(e: (InitialData, Vec<Move>, i32)) -> bool {
    &&& on_board(e.0.pieces@)
    &&& e.0.pieces@.len() <= 0x10000
    &&& e.1@.len() <= 0x100_0000
    &&& crate::initial::hc_total(e.0.hands.attacker) <= 255
}

/// `idx` lists each of `0..n` once.
pub open spec fn is_permutation(idx: Seq<usize>, n: nat) -> bool {
    &&& idx.len() == n
    &&& idx.no_duplicates()
    &&& forall|k: int| 0 <= k < idx.len() ==> #[trigger] idx[k] < n
}

/// The indices `0..n` by increasing key, equal keys in index order.
pub(crate) fn order_by_key(keys: &Vec<i32>) -> (r: Vec<usize>)
    ensures
        is_permutation(r@, keys@.len()),
        forall|a: int, b: int| 0 <= a < b < r@.len() ==> keys@[#[trigger] r@[a] as int] <= keys@[#[trigger] r@[b] as int],
{
    let n = keys.len();
    let mut used: Vec<bool> = Vec::new();
    let mut i: usize = 0;
    while i < n
        invariant
            i <= n,
            n == keys@.len(),
            used@.len() == i,
            forall|k: int| 0 <= k < i ==> !#[trigger] used@[k],
        decreases n - i,
    {
        used.push(false);
        i = i + 1;
    }
    let mut order: Vec<usize> = Vec::new();
    while order.len() < n
        invariant
            n == keys@.len(),
            used@.len() == n,
            order@.len() <= n,
            order@.no_duplicates(),
            forall|k: int| 0 <= k < order@.len() ==> #[trigger] order@[k] < n,
            forall|j: int| 0 <= j < n ==> (#[trigger] used@[j] <==> order@.contains(j as usize)),
            forall|a: int, b: int| 0 <= a < b < order@.len() ==> keys@[#[trigger] order@[a] as int] <= keys@[#[trigger] order@[b] as int],
            forall|a: int, j: int| 0 <= a < order@.len() && 0 <= j < n && !used@[j] ==> keys@[#[trigger] order@[a] as int] <= #[trigger] keys@[j],
        ensures
            order@.len() == n,
            order@.no_duplicates(),
            forall|k: int| 0 <= k < order@.len() ==> #[trigger] order@[k] < n,
            forall|a: int, b: int| 0 <= a < b < order@.len() ==> keys@[#[trigger] order@[a] as int] <= keys@[#[trigger] order@[b] as int],
        decreases n - order@.len(),
    {
        let mut best: usize = n;
        let mut j: usize = 0;
        while j < n
            invariant
                n == keys@.len(),
                used@.len() == n,
                j <= n,
                best == n || (best < j && !used@[best as int]),
                best == n ==> forall|k: int| 0 <= k < j ==> #[trigger] used@[k],
                best < n ==> forall|k: int| 0 <= k < j && !used@[k] ==> keys@[best as int] <= #[trigger] keys@[k],
            decreases n - j,
        {
            if !used[j] {
                if best == n || keys[j] < keys[best] {
                    best = j;
                }
            }
            j = j + 1;
        }
        if best == n {
            proof {
                let all = Seq::new(n as nat, |k: int| k as usize);
                assert(all.no_duplicates());
                assert forall|x: usize| all.contains(x) implies order@.contains(x) by {
                    let k = choose|k: int| 0 <= k < all.len() && all[k] == x;
                    assert(used@[k]);
                }
                lemma_distinct_within_len(all, order@);
            }
            break;
        }
        let ghost before = order@;
        order.push(best);
        used.set(best, true);
        proof {
            assert(!before.contains(best));
            assert forall|x: int, y: int| 0 <= x < y < order@.len() implies order@[x] != order@[y] by {
                if y == before.len() {
                    assert(before.contains(before[x]));
                }
            }
            assert forall|j: int| 0 <= j < n implies (#[trigger] used@[j] <==> order@.contains(j as usize)) by {
                if j == best {
                    assert(order@[before.len() as int] == best);
                } else {
                    if order@.contains(j as usize) {
                        let k = choose|k: int| 0 <= k < order@.len() && order@[k] == j as usize;
                        assert(k < before.len());
                        assert(before[k] == j as usize);
                    }
                    if before.contains(j as usize) {
                        let k = choose|k: int| 0 <= k < before.len() && before[k] == j as usize;
                        assert(order@[k] == j as usize);
                    }
                }
            }
        }
    }
    order
}

/// `x` stands in two places of a list without repeats only if they are one.
proof fn lemma_no_dup_index(s: Seq<usize>, a: int, b: int)
    requires
        s.no_duplicates(),
        0 <= a < s.len(),
        0 <= b < s.len(),
        s[a] == s[b],
    ensures
        a == b,
{
}

/// The size of each of the four tiers of `n` problems (the last one may be
/// shorter).
pub open spec fn tier_size(n: nat) -> nat {
    n / 4 + if n % 4 == 0 { 0nat } else { 1nat }
}

/// The difficulty of an entry's problem and solution.
pub open spec fn entry_difficulty(e: (InitialData, Vec<Move>, i32)) -> int {
    spec_difficulty(e.0, e.1@)
}

proof fn lemma_div_block(x: int, t: int, d: int)
    by (nonlinear_arith)
    requires
        d > 0,
        t * d <= x < t * d + d,
    ensures
        x / d == t,
{
}

proof fn lemma_div_mono(x: int, y: int, d: int)
    by (nonlinear_arith)
    requires
        d > 0,
        0 <= y <= x,
    ensures
        y / d <= x / d,
{
}

/// The order in which problems are listed (see `diversify_order`): indices
/// of `pool` sorted by difficulty (equal difficulties in pool order), cut
/// into four tiers of equal size (the last one shorter), each tier ordered
/// by `diversify_within` on the problems' features.
#[verifier::rlimit(60)]
#[verifier::spinoff_prover]
pub fn diversify_order_indices(pool: &Vec<(InitialData, Vec<Move>, i32)>) -> (r: Vec<usize>)
    requires
        forall|i: int| 0 <= i < pool@.len() ==> entry_ok(#[trigger] pool@[i]),
    ensures
        is_permutation(r@, pool@.len()),
        forall|a: int, b: int|
            0 <= a < b < r@.len() && a / (tier_size(pool@.len()) as int) < b / (tier_size(pool@.len()) as int)
                ==> entry_difficulty(pool@[#[trigger] r@[a] as int]) <= entry_difficulty(pool@[#[trigger] r@[b] as int]),
{
    let n = pool.len();
    let mut features: Vec<Vec<i32>> = Vec::new();
    let mut difficulties: Vec<i32> = Vec::new();
    let mut i: usize = 0;
    while i < n
        invariant
            i <= n,
            n == pool@.len(),
            forall|k: int| 0 <= k < pool@.len() ==> entry_ok(#[trigger] pool@[k]),
            features@.len() == i,
            difficulties@.len() == i,
            forall|k: int| 0 <= k < i ==> features_ok(#[trigger] features@[k]@),
            forall|k: int| 0 <= k < i ==> difficulties@[k] as int == #[trigger] entry_difficulty(pool@[k]),
        decreases n - i,
    {
        assert(entry_ok(pool@[i as int]));
        features.push(puzzle_features(&pool[i].0, &pool[i].1));
        difficulties.push(difficulty_score(&pool[i].0, &pool[i].1));
        i = i + 1;
    }
    let order = order_by_key(&difficulties);
    let tier: usize = n / 4 + if n % 4 == 0 { 0 } else { 1 };
    let mut result: Vec<usize> = Vec::new();
    if n == 0 {
        return result;
    }
    let mut start: usize = 0;
    let ghost mut tcount: int = 0;
    while start < n
        invariant
            n == pool@.len(),
            n > 0,
            tier >= 1,
            tier == tier_size(n as nat),
            start <= n,
            start == n || start == tcount * tier,
            tcount >= 0,
            difficulties@.len() == n,
            forall|k: int| 0 <= k < n ==> difficulties@[k] as int == #[trigger] entry_difficulty(pool@[k]),
            forall|a: int, b: int| 0 <= a < b < order@.len() ==> difficulties@[#[trigger] order@[a] as int] <= difficulties@[#[trigger] order@[b] as int],
            forall|k: int| 0 <= k < result@.len() ==> exists|pos: int| 0 <= pos < n && #[trigger] order@[pos] == #[trigger] result@[k] && pos / (tier as int) == k / (tier as int),
            is_permutation(order@, n as nat),
            features@.len() == n,
            forall|k: int| 0 <= k < n ==> features_ok(#[trigger] features@[k]@),
            result@.len() == start,
            result@.no_duplicates(),
            forall|k: int| 0 <= k < result@.len() ==> order@.take(start as int).contains(#[trigger] result@[k]),
        decreases n - start,
    {
        let end = if n - start < tier { n } else { start + tier };
        let mut chunk: Vec<usize> = Vec::new();
        let mut c: usize = start;
        while c < end
            invariant
                start <= c <= end,
                end <= n,
                order@.len() == n,
                chunk@ == order@.subrange(start as int, c as int),
            decreases end - c,
        {
            chunk.push(order[c]);
            proof {
                assert(chunk@ =~= order@.subrange(start as int, c as int + 1));
            }
            c = c + 1;
        }
        proof {
            assert forall|x: int, y: int| 0 <= x < y < chunk@.len() implies chunk@[x] != chunk@[y] by {
                assert(chunk@[x] == order@[start + x]);
                assert(chunk@[y] == order@[start + y]);
                if chunk@[x] == chunk@[y] {
                    lemma_no_dup_index(order@, start + x, start + y);
                }
            }
            assert forall|j: int| 0 <= j < chunk@.len() implies #[trigger] chunk@[j] < features@.len() by {
                assert(chunk@[j] == order@[start + j]);
            }
        }
        let div = diversify_within(&chunk, &features);
        let ghost before = result@;
        let mut k: usize = 0;
        while k < div.len()
            invariant
                k <= div@.len(),
                div@.len() == chunk@.len(),
                result@ == before + div@.take(k as int),
            decreases div.len() - k,
        {
            result.push(div[k]);
            proof {
                assert(div@.take(k as int + 1) =~= div@.take(k as int).push(div@[k as int]));
            }
            k = k + 1;
        }
        proof {
            assert(div@.take(div@.len() as int) =~= div@);
            assert forall|j: int| 0 <= j < div@.len() implies order@.take(end as int).contains(#[trigger] div@[j]) by {
                assert(chunk@.contains(div@[j]));
                let q = choose|q: int| 0 <= q < chunk@.len() && chunk@[q] == div@[j];
                assert(order@.take(end as int)[start + q] == div@[j]);
            }
            assert forall|j: int| 0 <= j < before.len() implies order@.take(end as int).contains(#[trigger] before[j]) by {
                assert(order@.take(start as int).contains(before[j]));
                let q = choose|q: int| 0 <= q < start && order@.take(start as int)[q] == before[j];
                assert(order@.take(end as int)[q] == before[j]);
            }
            assert forall|x: int, y: int| 0 <= x < y < result@.len() implies result@[x] != result@[y] by {
                if y >= before.len() && x < before.len() {
                    let dx = result@[x];
                    assert(order@.take(start as int).contains(dx));
                    let q1 = choose|q: int| 0 <= q < start && order@.take(start as int)[q] == dx;
                    assert(chunk@.contains(div@[y - before.len()]));
                    let q2 = choose|q: int| 0 <= q < chunk@.len() && chunk@[q] == div@[y - before.len()];
                    if dx == result@[y] {
                        lemma_no_dup_index(order@, q1, start + q2);
                    }
                } else if x >= before.len() {
                    assert(div@[x - before.len()] != div@[y - before.len()]);
                }
            }
        }
        proof {
            assert forall|k: int| 0 <= k < result@.len() implies exists|pos: int| 0 <= pos < n && #[trigger] order@[pos] == #[trigger] result@[k] && pos / (tier as int) == k / (tier as int) by {
                if k >= before.len() {
                    let j = k - before.len();
                    assert(result@[k] == div@[j]);
                    assert(chunk@.contains(div@[j]));
                    let q = choose|q: int| 0 <= q < chunk@.len() && chunk@[q] == div@[j];
                    assert(order@[start + q] == result@[k]);
                    assert(end <= start + tier);
                    lemma_div_block(start + q, tcount, tier as int);
                    lemma_div_block(k, tcount, tier as int);
                } else {
                    assert(result@[k] == before[k]);
                }
            }
            if end < n {
                assert(end == start + tier);
                assert((tcount + 1) * tier == tcount * tier + tier) by (nonlinear_arith);
            }
            tcount = tcount + 1;
        }
        start = end;
    }
    proof {
        assert forall|a: int, b: int|
            0 <= a < b < result@.len() && a / (tier_size(pool@.len()) as int) < b / (tier_size(pool@.len()) as int)
                implies entry_difficulty(pool@[#[trigger] result@[a] as int]) <= entry_difficulty(pool@[#[trigger] result@[b] as int]) by {
            let pa = choose|pos: int| 0 <= pos < n && #[trigger] order@[pos] == result@[a] && pos / (tier as int) == a / (tier as int);
            let pb = choose|pos: int| 0 <= pos < n && #[trigger] order@[pos] == result@[b] && pos / (tier as int) == b / (tier as int);
            if pb <= pa {
                lemma_div_mono(pa, pb, tier as int);
            }
            assert(pa < pb);
            assert(difficulties@[order@[pa] as int] <= difficulties@[order@[pb] as int]);
        }
        assert(order@.take(n as int) =~= order@);
        assert forall|k: int| 0 <= k < result@.len() implies #[trigger] result@[k] < n by {
            let q = choose|q: int| 0 <= q < order@.len() && order@[q] == result@[k];
        }
    }
    result
}

/// A copy of a problem entry.
fn copy_entry(e: &(InitialData, Vec<Move>, i32)) -> (r: (InitialData, Vec<Move>, i32))
    ensures
        r.0.pieces@ == e.0.pieces@,
        r.0.hands == e.0.hands,
        r.0.side_to_move == e.0.side_to_move,
        r.1@ == e.1@,
        r.2 == e.2,
{
    (copy_initial(&e.0), crate::search::copy_moves(&e.1), e.2)
}

/// Two entries hold the same problem, solution and score.
pub open spec fn same_entry(a: (InitialData, Vec<Move>, i32), b: (InitialData, Vec<Move>, i32)) -> bool {
    a.0.pieces@ == b.0.pieces@ && a.0.hands == b.0.hands && a.0.side_to_move == b.0.side_to_move && a.1@ == b.1@
        && a.2 == b.2
}

/// `r` lists the entries of `pool` in the order `idx`, a permutation, each
/// tier of `r` (see `tier_size`) no harder than the tiers after it.
pub open spec fn listing_of(idx: Seq<usize>, pool: Seq<(InitialData, Vec<Move>, i32)>, r: Seq<(InitialData, Vec<Move>, i32)>) -> bool {
    &&& is_permutation(idx, pool.len())
    &&& r.len() == idx.len()
    &&& forall|k: int| 0 <= k < r.len() ==> #[trigger] same_entry(r[k], pool[idx[k] as int])
    &&& forall|a: int, b: int|
        0 <= a < b < idx.len() && a / (tier_size(pool.len()) as int) < b / (tier_size(pool.len()) as int)
            ==> entry_difficulty(pool[#[trigger] idx[a] as int]) <= entry_difficulty(pool[#[trigger] idx[b] as int])
}

/// The problems listed from easy to hard with each tier ordered for variety
/// (see `diversify_order_indices`): the same entries, each once.
pub fn diversify_order(pool: Vec<(InitialData, Vec<Move>, i32)>) -> (r: Vec<(InitialData, Vec<Move>, i32)>)
    requires
        forall|i: int| 0 <= i < pool@.len() ==> entry_ok(#[trigger] pool@[i]),
    ensures
        exists|idx: Seq<usize>| #[trigger] listing_of(idx, pool@, r@),
{
    let order = diversify_order_indices(&pool);
    let mut result: Vec<(InitialData, Vec<Move>, i32)> = Vec::new();
    let mut k: usize = 0;
    while k < order.len()
        invariant
            k <= order@.len(),
            is_permutation(order@, pool@.len()),
            result@.len() == k,
            forall|j: int| 0 <= j < k ==> #[trigger] same_entry(result@[j], pool@[order@[j] as int]),
        decreases order.len() - k,
    {
        let e = copy_entry(&pool[order[k]]);
        result.push(e);
        k = k + 1;
    }
    proof {
        assert(listing_of(order@, pool@, result@));
    }
    result
}

} // verus!

use vstd::prelude::*;
use crate::pieces::{
    BoardPiece, Hands, Move, Owner, PieceType, Pos, HAND_TYPES, spec_hand_idx, spec_hand_types,
    lemma_hand_types, valid_xy, sq_index,
};
use crate::zobrist::{
    board_key, hand_key, side_key, sq_hash, sq_hash_exec, hand_key_exec, side_key_exec,
    lemma_xor_assoc,
};

verus! {

broadcast use vstd::array::group_array_axioms;

/// A position: the board (square `(x, y)` at index `(y - 1) * 9 + (x - 1)`),
/// the pieces in hand, the side to move, a cache of both kings' squares and
/// an incrementally maintained Zobrist hash.
#[derive(Debug, Clone, Copy, PartialEq, Eq, Hash)]
pub struct State {
    pub board: [Option<BoardPiece>; 81],
    pub hands: Hands,
    pub side_to_move: Owner,
    pub attacker_king: Option<Pos>,
    pub defender_king: Option<Pos>,
    pub zobrist_hash: u64,
}

/// The square with board index `i`.
pub open spec fn pos_of(i: int) -> Pos {
    Pos { x: (i % 9 + 1) as i8, y: (i / 9 + 1) as i8 }
}

pub open spec fn king_of(o: Owner) -> Option<BoardPiece> {
    Some(BoardPiece { owner: o, piece_type: PieceType::K })
}

/// XOR of the square contributions of the first `n` squares.
pub open spec fn board_hash(b: Seq<Option<BoardPiece>>, n: nat) -> u64
    decreases n,
{
    if n == 0 {
        0
    } else {
        board_hash(b, (n - 1) as nat) ^ sq_hash(b[n - 1], n - 1)
    }
}

/// XOR of the keys of the first `n` hand kinds of both sides.
pub open spec fn hands_hash(h: Hands, n: nat) -> u64
    decreases n,
{
    if n == 0 {
        0
    } else {
        let t = spec_hand_types()[n - 1];
        hands_hash(h, (n - 1) as nat) ^ hand_key(Owner::Attacker, t, h.count(Owner::Attacker, t))
            ^ hand_key(Owner::Defender, t, h.count(Owner::Defender, t))
    }
}

pub open spec fn side_hash(o: Owner) -> u64 {
    if o == Owner::Attacker {
        side_key()
    } else {
        0
    }
}

/// The Zobrist hash of a position computed from scratch.
pub open spec fn full_hash(s: State) -> u64 {
    board_hash(s.board@, 81) ^ hands_hash(s.hands, 7) ^ side_hash(s.side_to_move)
}

/// Total number of pieces in both hands.
pub open spec fn hands_total(h: Hands) -> int {
    h.attacker@[0] + h.attacker@[1] + h.attacker@[2] + h.attacker@[3] + h.attacker@[4] + h.attacker@[5]
        + h.attacker@[6] + h.defender@[0] + h.defender@[1] + h.defender@[2] + h.defender@[3]
        + h.defender@[4] + h.defender@[5] + h.defender@[6]
}

/// Number of occupied squares.
pub open spec fn board_count(b: Seq<Option<BoardPiece>>) -> nat
    decreases b.len(),
{
    if b.len() == 0 {
        0
    } else {
        board_count(b.drop_last()) + if b.last() is Some { 1nat } else { 0nat }
    }
}

impl State {
    pub open spec fn king_cache(self, o: Owner) -> Option<Pos> {
        match o {
            Owner::Attacker => self.attacker_king,
            Owner::Defender => self.defender_king,
        }
    }

    pub open spec fn with_king_cache(self, o: Owner, v: Option<Pos>) -> State {
        match o {
            Owner::Attacker => State { attacker_king: v, ..self },
            Owner::Defender => State { defender_king: v, ..self },
        }
    }

    pub open spec fn at(self, i: int) -> Option<BoardPiece> {
        self.board@[i]
    }

    pub open spec fn piece_at(self, x: int, y: int) -> Option<BoardPiece> {
        self.board@[sq_index(x, y)]
    }

    /// The king cache agrees with the board, and each side has at most one
    /// king, the one the cache points at.
    pub open spec fn wf(self) -> bool {
        &&& forall|o: Owner| #[trigger] self.king_cache(o) matches Some(p) ==> p.spec_valid()
            && self.at(p.spec_idx()) == king_of(o)
        &&& forall|i: int|
            0 <= i < 81 && (#[trigger] self.at(i) matches Some(bp) && bp.piece_type == PieceType::K)
                ==> self.king_cache(self.at(i).unwrap().owner) == Some(pos_of(i))
    }

    /// Room for captures: pieces in hand plus pieces on the board never
    /// exceed 255, so no hand count can overflow.
    pub open spec fn room(self) -> bool {
        hands_total(self.hands) + board_count(self.board@) <= 255
    }
}

/// Two positions are equal when all their parts are.
pub proof fn lemma_state_ext(a: State, b: State)
    requires
        a.board@ == b.board@,
        a.hands.attacker@ == b.hands.attacker@,
        a.hands.defender@ == b.hands.defender@,
        a.side_to_move == b.side_to_move,
        a.zobrist_hash == b.zobrist_hash,
        a.king_cache(Owner::Attacker) == b.king_cache(Owner::Attacker),
        a.king_cache(Owner::Defender) == b.king_cache(Owner::Defender),
    ensures
        a == b,
{
    assert(a.board =~= b.board);
    assert(a.hands.attacker =~= b.hands.attacker);
    assert(a.hands.defender =~= b.hands.defender);
}

/// `State::set` in spec form: place `piece` (or nothing) on `pos`, keeping
/// the king cache and the hash up to date.
pub open spec fn spec_set(s: State, pos: Pos, piece: Option<BoardPiece>) -> State {
    let i = pos.spec_idx();
    let old = s.at(i);
    let s1 = match old {
        Some(bp) => if bp.piece_type == PieceType::K {
            s.with_king_cache(bp.owner, None)
        } else {
            s
        },
        None => s,
    };
    let s2 = match piece {
        Some(bp) => if bp.piece_type == PieceType::K {
            s1.with_king_cache(bp.owner, Some(pos))
        } else {
            s1
        },
        None => s1,
    };
    State {
        board: vstd::array::spec_array_update(s.board, i, piece),
        zobrist_hash: s.zobrist_hash ^ sq_hash(old, i) ^ sq_hash(piece, i),
        ..s2
    }
}

impl State {
    pub fn new() -> (r: Self)
        ensures
            forall|i: int| 0 <= i < 81 ==> r.at(i) is None,
            forall|i: int| 0 <= i < 7 ==> r.hands.attacker@[i] == 0 && r.hands.defender@[i] == 0,
            r.side_to_move == Owner::Attacker,
            r.king_cache(Owner::Attacker) is None,
            r.king_cache(Owner::Defender) is None,
            r.zobrist_hash == side_key(),
            r.wf(),
            r.room(),
    {
        let r = State {
            board: [None; 81],
            hands: Hands::empty(),
            side_to_move: Owner::Attacker,
            attacker_king: None,
            defender_king: None,
            zobrist_hash: side_key_exec(),
        };
        proof {
            lemma_board_count_empty(r.board@);
        }
        r
    }

    pub fn get(&self, pos: Pos) -> (r: Option<BoardPiece>)
        requires
            pos.spec_valid(),
        ensures
            r == self.at(pos.spec_idx()),
    {
        self.board[pos.idx()]
    }

    pub fn set(&mut self, pos: Pos, piece: Option<BoardPiece>)
        requires
            pos.spec_valid(),
        ensures
            *final(self) == spec_set(*old(self), pos, piece),
    {
        let idx = pos.idx();
        let old_piece = self.board[idx];
        let h0 = self.zobrist_hash;
        let ghost s0 = *self;
        if let Some(old) = old_piece {
            if old.piece_type == PieceType::K {
                match old.owner {
                    Owner::Attacker => self.attacker_king = None,
                    Owner::Defender => self.defender_king = None,
                }
            }
        }
        if let Some(bp) = piece {
            if bp.piece_type == PieceType::K {
                match bp.owner {
                    Owner::Attacker => self.attacker_king = Some(pos),
                    Owner::Defender => self.defender_king = Some(pos),
                }
            }
        }
        self.zobrist_hash = h0 ^ sq_hash_exec(old_piece, idx) ^ sq_hash_exec(piece, idx);
        self.board[idx] = piece;
        proof {
            let t = spec_set(s0, pos, piece);
            assert(self.board@ == t.board@);
            lemma_state_ext(*self, t);
        }
    }

    pub fn king_pos(&self, owner: Owner) -> (r: Option<Pos>)
        ensures
            r == self.king_cache(owner),
    {
        match owner {
            Owner::Attacker => self.attacker_king,
            Owner::Defender => self.defender_king,
        }
    }
}


/// Changing one square changes the occupied count by what was removed and
/// what was added.
pub proof fn lemma_board_count_update(b: Seq<Option<BoardPiece>>, i: int, v: Option<BoardPiece>)
    requires
        0 <= i < b.len(),
    ensures
        board_count(b.update(i, v)) + (if b[i] is Some { 1int } else { 0int }) == board_count(b) + (
        if v is Some { 1int } else { 0int }),
    decreases b.len(),
{
    let u = b.update(i, v);
    if i == b.len() - 1 {
        assert(u.drop_last() =~= b.drop_last());
    } else {
        lemma_board_count_update(b.drop_last(), i, v);
        assert(u.drop_last() =~= b.drop_last().update(i, v));
    }
}

/// Changing one square changes the board hash by the old and new contributions.
pub proof fn lemma_board_hash_update(b: Seq<Option<BoardPiece>>, n: nat, i: int, v: Option<BoardPiece>)
    requires
        0 <= i < b.len(),
        n <= b.len(),
    ensures
        board_hash(b.update(i, v), n) == if i < n {
            board_hash(b, n) ^ sq_hash(b[i], i) ^ sq_hash(v, i)
        } else {
            board_hash(b, n)
        },
    decreases n,
{
    if n > 0 {
        lemma_board_hash_update(b, (n - 1) as nat, i, v);
        let u = b.update(i, v);
        let p = board_hash(b, (n - 1) as nat);
        let x = sq_hash(b[i], i);
        let y = sq_hash(v, i);
        let z = sq_hash(b[n - 1], n - 1);
        if i < n - 1 {
            assert(((p ^ x ^ y) ^ z) == ((p ^ z) ^ x ^ y)) by (bit_vector);
        } else if i == n - 1 {
            assert((p ^ y) == ((p ^ x) ^ x ^ y)) by (bit_vector);
        }
    }
}

/// The hash difference made by changing one hand count.
pub proof fn lemma_hands_hash_update(h: Hands, n: nat, owner: Owner, t: PieceType, val: u8)
    requires
        n <= 7,
        t.spec_is_hand_type(),
    ensures
        hands_hash(h.with_count(owner, t, val), n) == if spec_hand_idx(t) < n {
            hands_hash(h, n) ^ hand_key(owner, t, h.count(owner, t)) ^ hand_key(owner, t, val)
        } else {
            hands_hash(h, n)
        },
    decreases n,
{
    if n > 0 {
        lemma_hands_hash_update(h, (n - 1) as nat, owner, t, val);
        let h2 = h.with_count(owner, t, val);
        let u = spec_hand_types()[n - 1];
        lemma_hand_types(n - 1);
        crate::pieces::lemma_hands_with_count(h, owner, t, val, Owner::Attacker, u);
        crate::pieces::lemma_hands_with_count(h, owner, t, val, Owner::Defender, u);
        let p = hands_hash(h, (n - 1) as nat);
        let a = hand_key(Owner::Attacker, u, h.count(Owner::Attacker, u));
        let d = hand_key(Owner::Defender, u, h.count(Owner::Defender, u));
        let x = hand_key(owner, t, h.count(owner, t));
        let y = hand_key(owner, t, val);
        if spec_hand_idx(t) < n - 1 {
            assert(spec_hand_idx(u) != spec_hand_idx(t));
            assert(((p ^ x ^ y) ^ a ^ d) == ((p ^ a ^ d) ^ x ^ y)) by (bit_vector);
        } else if spec_hand_idx(t) == n - 1 {
            assert(u == t);
            if owner == Owner::Attacker {
                assert((p ^ y ^ d) == ((p ^ x ^ d) ^ x ^ y)) by (bit_vector);
            } else {
                assert((p ^ a ^ y) == ((p ^ a ^ x) ^ x ^ y)) by (bit_vector);
            }
        } else {
            assert(spec_hand_idx(u) != spec_hand_idx(t));
        }
    }
}

pub proof fn lemma_board_count_empty(b: Seq<Option<BoardPiece>>)
    requires
        forall|i: int| 0 <= i < b.len() ==> b[i] is None,
    ensures
        board_count(b) == 0,
    decreases b.len(),
{
    if b.len() > 0 {
        lemma_board_count_empty(b.drop_last());
    }
}


pub open spec fn move_from_pos(m: Move) -> Pos {
    Pos { x: m.from.unwrap()[0], y: m.from.unwrap()[1] }
}

pub open spec fn move_to_pos(m: Move) -> Pos {
    Pos { x: m.to[0], y: m.to[1] }
}

/// Conditions under which applying `m` to `s` runs without a panic: the
/// squares exist, a drop has a piece in hand, a board move has a piece on
/// its origin, and a capture does not overflow the hand count.
pub open spec fn move_ok(s: State, m: Move) -> bool {
    let owner = s.side_to_move;
    let tp = move_to_pos(m);
    &&& tp.spec_valid()
    &&& match m.drop {
        Some(d) => d.spec_is_hand_type() && s.hands.count(owner, d) >= 1,
        None => {
            &&& m.from is Some
            &&& move_from_pos(m).spec_valid()
            &&& s.at(move_from_pos(m).spec_idx()) is Some
            &&& (s.at(tp.spec_idx()) matches Some(c) ==> (c.piece_type.spec_unpromote()
                != PieceType::K ==> s.hands.count(owner, c.piece_type.spec_unpromote()) < 255))
        },
    }
}

/// Set the hand count of `t` for `owner` to `val`, updating the hash.
pub open spec fn spec_hand_change(s: State, owner: Owner, t: PieceType, val: u8) -> State {
    State {
        hands: s.hands.with_count(owner, t, val),
        zobrist_hash: s.zobrist_hash ^ hand_key(owner, t, s.hands.count(owner, t)) ^ hand_key(
            owner,
            t,
            val,
        ),
        ..s
    }
}

/// The position after the side to move plays `m`.
pub open spec fn spec_apply(s: State, m: Move) -> State {
    let owner = s.side_to_move;
    let tp = move_to_pos(m);
    let s3 = match m.drop {
        Some(d) => {
            let c = s.hands.count(owner, d);
            let s1 = spec_hand_change(s, owner, d, (c - 1) as u8);
            spec_set(s1, tp, Some(BoardPiece { owner, piece_type: d }))
        },
        None => {
            let fp = move_from_pos(m);
            let src = s.at(fp.spec_idx()).unwrap();
            let s1 = match s.at(tp.spec_idx()) {
                Some(cap) => if cap.piece_type.spec_unpromote() != PieceType::K {
                    let ct = cap.piece_type.spec_unpromote();
                    spec_hand_change(s, owner, ct, (s.hands.count(owner, ct) + 1) as u8)
                } else {
                    s
                },
                None => s,
            };
            let s2 = spec_set(s1, fp, None);
            let moved = if m.promote {
                src.piece_type.spec_promote()
            } else {
                src.piece_type
            };
            spec_set(s2, tp, Some(BoardPiece { owner, piece_type: moved }))
        },
    };
    State {
        side_to_move: owner.spec_opposite(),
        zobrist_hash: s3.zobrist_hash ^ side_key(),
        ..s3
    }
}

/// What a move takes off the board (nothing for a drop).
pub open spec fn spec_captured(s: State, m: Move) -> Option<BoardPiece> {
    if m.drop is Some {
        None
    } else {
        s.at(move_to_pos(m).spec_idx())
    }
}

/// Conditions under which taking back `m` from `s` runs without a panic.
pub open spec fn undo_ok(s: State, m: Move, u: UndoInfo) -> bool {
    let owner = s.side_to_move.spec_opposite();
    let tp = move_to_pos(m);
    &&& tp.spec_valid()
    &&& match m.drop {
        Some(d) => d.spec_is_hand_type() && s.hands.count(owner, d) < 255,
        None => {
            &&& m.from is Some
            &&& move_from_pos(m).spec_valid()
            &&& s.at(tp.spec_idx()) is Some
            &&& (u.captured matches Some(c) ==> (c.piece_type.spec_unpromote() != PieceType::K
                ==> s.hands.count(owner, c.piece_type.spec_unpromote()) >= 1))
        },
    }
}

/// The position after taking back `m`, whose capture is recorded in `u`.
pub open spec fn spec_undo(s: State, m: Move, u: UndoInfo) -> State {
    let s1 = State {
        side_to_move: s.side_to_move.spec_opposite(),
        zobrist_hash: s.zobrist_hash ^ side_key(),
        ..s
    };
    let owner = s1.side_to_move;
    let tp = move_to_pos(m);
    match m.drop {
        Some(d) => {
            let s2 = spec_set(s1, tp, None);
            spec_hand_change(s2, owner, d, (s2.hands.count(owner, d) + 1) as u8)
        },
        None => {
            let fp = move_from_pos(m);
            let moved = s1.at(tp.spec_idx()).unwrap();
            let orig = if m.promote {
                moved.piece_type.spec_unpromote()
            } else {
                moved.piece_type
            };
            let s2 = spec_set(s1, tp, u.captured);
            let s3 = spec_set(s2, fp, Some(BoardPiece { owner, piece_type: orig }));
            match u.captured {
                Some(cap) => if cap.piece_type.spec_unpromote() != PieceType::K {
                    let ct = cap.piece_type.spec_unpromote();
                    spec_hand_change(s3, owner, ct, (s3.hands.count(owner, ct) - 1) as u8)
                } else {
                    s3
                },
                None => s3,
            }
        },
    }
}

/// What `make_move` records so that `undo_move` can take the move back.
#[derive(Debug)]
pub struct UndoInfo {
    pub captured: Option<BoardPiece>,
}

fn zobrist_hand_update(hash: &mut u64, owner: Owner, t: PieceType, old_count: u8, new_count: u8)
    requires
        t.spec_is_hand_type(),
    ensures
        *final(hash) == *old(hash) ^ hand_key(owner, t, old_count) ^ hand_key(owner, t, new_count),
{
    let hi = hand_idx_of(t);
    *hash = *hash ^ hand_key_exec(owner, hi, old_count) ^ hand_key_exec(owner, hi, new_count);
}

fn hand_idx_of(t: PieceType) -> (r: usize)
    requires
        t.spec_is_hand_type(),
    ensures
        r as int == spec_hand_idx(t),
        r < 7,
{
    match t {
        PieceType::R => 0,
        PieceType::B => 1,
        PieceType::G => 2,
        PieceType::S => 3,
        PieceType::N => 4,
        PieceType::L => 5,
        _ => 6,
    }
}

/// Play `m` in place; the returned record lets `undo_move` take it back.
pub fn make_move(state: &mut State, m: &Move) -> (u: UndoInfo)
    requires
        move_ok(*old(state), *m),
    ensures
        *final(state) == spec_apply(*old(state), *m),
        u.captured == spec_captured(*old(state), *m),
{
    let owner = state.side_to_move;
    let ghost s0 = *state;
    if let Some(drop_type) = m.drop {
        let old_count = state.hands.get(owner, drop_type);
        state.hands.sub(owner, drop_type, 1);
        zobrist_hand_update(&mut state.zobrist_hash, owner, drop_type, old_count, old_count - 1);
        let tp = Pos::new(m.to[0], m.to[1]);
        state.set(tp, Some(BoardPiece { owner, piece_type: drop_type }));
        state.side_to_move = owner.opposite();
        state.zobrist_hash = state.zobrist_hash ^ side_key_exec();
        proof {
            let t = spec_apply(s0, *m);
            lemma_state_ext(*state, t);
        }
        UndoInfo { captured: None }
    } else {
        let from = m.from.unwrap();
        let fp = Pos::new(from[0], from[1]);
        let src = state.get(fp).unwrap();
        let tp = Pos::new(m.to[0], m.to[1]);
        let captured = state.get(tp);
        if let Some(cap) = captured {
            let cap_type = cap.piece_type.unpromote();
            if cap_type != PieceType::K {
                let old_count = state.hands.get(owner, cap_type);
                state.hands.add(owner, cap_type, 1);
                zobrist_hand_update(&mut state.zobrist_hash, owner, cap_type, old_count, old_count + 1);
            }
        }
        state.set(fp, None);
        let moved_type = if m.promote {
            src.piece_type.promote()
        } else {
            src.piece_type
        };
        state.set(tp, Some(BoardPiece { owner, piece_type: moved_type }));
        state.side_to_move = owner.opposite();
        state.zobrist_hash = state.zobrist_hash ^ side_key_exec();
        proof {
            let t = spec_apply(s0, *m);
            lemma_state_ext(*state, t);
        }
        UndoInfo { captured }
    }
}

/// Take back `m`, played by `make_move`, which returned `undo`.
pub fn undo_move(state: &mut State, m: &Move, undo: &UndoInfo)
    requires
        undo_ok(*old(state), *m, *undo),
    ensures
        *final(state) == spec_undo(*old(state), *m, *undo),
{
    let ghost s0 = *state;
    state.side_to_move = state.side_to_move.opposite();
    state.zobrist_hash = state.zobrist_hash ^ side_key_exec();
    let owner = state.side_to_move;
    if let Some(drop_type) = m.drop {
        let tp = Pos::new(m.to[0], m.to[1]);
        state.set(tp, None);
        let old_count = state.hands.get(owner, drop_type);
        state.hands.add(owner, drop_type, 1);
        zobrist_hand_update(&mut state.zobrist_hash, owner, drop_type, old_count, old_count + 1);
        proof {
            lemma_state_ext(*state, spec_undo(s0, *m, *undo));
        }
    } else {
        let from = m.from.unwrap();
        let fp = Pos::new(from[0], from[1]);
        let tp = Pos::new(m.to[0], m.to[1]);
        let moved = state.get(tp).unwrap();
        let orig_type = if m.promote {
            moved.piece_type.unpromote()
        } else {
            moved.piece_type
        };
        state.set(tp, undo.captured);
        state.set(fp, Some(BoardPiece { owner, piece_type: orig_type }));
        if let Some(cap) = undo.captured {
            let cap_type = cap.piece_type.unpromote();
            if cap_type != PieceType::K {
                let old_count = state.hands.get(owner, cap_type);
                state.hands.sub(owner, cap_type, 1);
                zobrist_hand_update(&mut state.zobrist_hash, owner, cap_type, old_count, old_count - 1);
            }
        }
        proof {
            lemma_state_ext(*state, spec_undo(s0, *m, *undo));
        }
    }
}

/// The position after `m`, leaving `state` as it was.
pub fn apply_move(state: &State, m: &Move) -> (r: State)
    requires
        move_ok(*state, *m),
    ensures
        r == spec_apply(*state, *m),
{
    let mut next = *state;
    let _ = make_move(&mut next, m);
    next
}

impl State {
    /// The hash computed from scratch.
    pub fn compute_zobrist(&self) -> (r: u64)
        ensures
            r == full_hash(*self),
    {
        let mut h: u64 = 0;
        let mut sq: usize = 0;
        while sq < 81
            invariant
                sq <= 81,
                h == board_hash(self.board@, sq as nat),
            decreases 81 - sq,
        {
            h = h ^ sq_hash_exec(self.board[sq], sq);
            sq = sq + 1;
        }
        let hb = h;
        assert(hb ^ 0 == hb) by (bit_vector);
        let mut i: usize = 0;
        while i < 7
            invariant
                i <= 7,
                h == hb ^ hands_hash(self.hands, i as nat),
                hb == board_hash(self.board@, 81),
            decreases 7 - i,
        {
            let t = HAND_TYPES[i];
            proof {
                lemma_hand_types(i as int);
            }
            let ac = self.hands.get(Owner::Attacker, t);
            let ka = hand_key_exec(Owner::Attacker, i, ac);
            let dc = self.hands.get(Owner::Defender, t);
            let kd = hand_key_exec(Owner::Defender, i, dc);
            let ghost hh = hands_hash(self.hands, i as nat);
            h = h ^ ka;
            h = h ^ kd;
            assert((hb ^ hh) ^ ka ^ kd == hb ^ (hh ^ ka ^ kd)) by (bit_vector);
            i = i + 1;
        }
        if self.side_to_move == Owner::Attacker {
            h = h ^ side_key_exec();
        } else {
            assert(h ^ 0 == h) by (bit_vector);
        }
        h
    }

    /// The incremental hash with the hand contributions taken out (board
    /// and side to move only).
    pub fn board_only_zobrist(&self) -> (r: u64)
        ensures
            r == self.zobrist_hash ^ hands_hash(self.hands, 7),
    {
        let mut h = self.zobrist_hash;
        let ghost z0 = h;
        assert(z0 ^ 0 == z0) by (bit_vector);
        let mut i: usize = 0;
        while i < 7
            invariant
                i <= 7,
                h == self.zobrist_hash ^ hands_hash(self.hands, i as nat),
            decreases 7 - i,
        {
            let t = HAND_TYPES[i];
            proof {
                lemma_hand_types(i as int);
            }
            let ac = self.hands.get(Owner::Attacker, t);
            let ka = hand_key_exec(Owner::Attacker, i, ac);
            let dc = self.hands.get(Owner::Defender, t);
            let kd = hand_key_exec(Owner::Defender, i, dc);
            let ghost hh = hands_hash(self.hands, i as nat);
            let ghost z = self.zobrist_hash;
            h = h ^ ka;
            h = h ^ kd;
            assert((z ^ hh) ^ ka ^ kd == z ^ (hh ^ ka ^ kd)) by (bit_vector);
            i = i + 1;
        }
        h
    }
}


/// The hash stays in step with `full_hash`: `set` changes both by the same amount.
pub proof fn lemma_set_hash_offset(s: State, pos: Pos, piece: Option<BoardPiece>)
    requires
        pos.spec_valid(),
    ensures
        spec_set(s, pos, piece).zobrist_hash ^ full_hash(spec_set(s, pos, piece)) == s.zobrist_hash
            ^ full_hash(s),
{
    let t = spec_set(s, pos, piece);
    let i = pos.spec_idx();
    lemma_board_hash_update(s.board@, 81, i, piece);
    assert(t.board@ == s.board@.update(i, piece));
    let z = s.zobrist_hash;
    let b = board_hash(s.board@, 81);
    let x = sq_hash(s.at(i), i);
    let y = sq_hash(piece, i);
    let hh = hands_hash(s.hands, 7);
    let sd = side_hash(s.side_to_move);
    assert(((z ^ x ^ y) ^ ((b ^ x ^ y) ^ hh ^ sd)) == (z ^ (b ^ hh ^ sd))) by (bit_vector);
}

pub proof fn lemma_hand_change_hash_offset(s: State, owner: Owner, t: PieceType, val: u8)
    requires
        t.spec_is_hand_type(),
    ensures
        spec_hand_change(s, owner, t, val).zobrist_hash ^ full_hash(spec_hand_change(s, owner, t, val))
            == s.zobrist_hash ^ full_hash(s),
{
    lemma_hands_hash_update(s.hands, 7, owner, t, val);
    let z = s.zobrist_hash;
    let b = board_hash(s.board@, 81);
    let x = hand_key(owner, t, s.hands.count(owner, t));
    let y = hand_key(owner, t, val);
    let hh = hands_hash(s.hands, 7);
    let sd = side_hash(s.side_to_move);
    assert(((z ^ x ^ y) ^ (b ^ (hh ^ x ^ y) ^ sd)) == (z ^ (b ^ hh ^ sd))) by (bit_vector);
}

pub proof fn lemma_flip_hash_offset(s: State)
    ensures
        ({
            let t = State {
                side_to_move: s.side_to_move.spec_opposite(),
                zobrist_hash: s.zobrist_hash ^ side_key(),
                ..s
            };
            t.zobrist_hash ^ full_hash(t) == s.zobrist_hash ^ full_hash(s)
        }),
{
    let z = s.zobrist_hash;
    let b = board_hash(s.board@, 81);
    let hh = hands_hash(s.hands, 7);
    let k = side_key();
    assert(((z ^ k) ^ (b ^ hh ^ 0)) == (z ^ (b ^ hh ^ k))) by (bit_vector);
    assert(((z ^ k) ^ (b ^ hh ^ k)) == (z ^ (b ^ hh ^ 0))) by (bit_vector);
}

/// Law: playing a move changes the incremental hash exactly as it changes the
/// hash computed from scratch, so a position whose hash was computed from
/// scratch keeps `zobrist_hash == full_hash` along any line of play.
pub proof fn lemma_apply_hash_offset(s: State, m: Move)
    requires
        move_ok(s, m),
    ensures
        spec_apply(s, m).zobrist_hash ^ full_hash(spec_apply(s, m)) == s.zobrist_hash ^ full_hash(s),
{
    let owner = s.side_to_move;
    let tp = move_to_pos(m);
    match m.drop {
        Some(d) => {
            let c = s.hands.count(owner, d);
            let s1 = spec_hand_change(s, owner, d, (c - 1) as u8);
            lemma_hand_change_hash_offset(s, owner, d, (c - 1) as u8);
            let s3 = spec_set(s1, tp, Some(BoardPiece { owner, piece_type: d }));
            lemma_set_hash_offset(s1, tp, Some(BoardPiece { owner, piece_type: d }));
            lemma_flip_hash_offset(s3);
        },
        None => {
            let fp = move_from_pos(m);
            let src = s.at(fp.spec_idx()).unwrap();
            let s1 = match s.at(tp.spec_idx()) {
                Some(cap) => if cap.piece_type.spec_unpromote() != PieceType::K {
                    let ct = cap.piece_type.spec_unpromote();
                    lemma_hand_change_hash_offset(s, owner, ct, (s.hands.count(owner, ct) + 1) as u8);
                    spec_hand_change(s, owner, ct, (s.hands.count(owner, ct) + 1) as u8)
                } else {
                    s
                },
                None => s,
            };
            let s2 = spec_set(s1, fp, None);
            lemma_set_hash_offset(s1, fp, None);
            let moved = if m.promote {
                src.piece_type.spec_promote()
            } else {
                src.piece_type
            };
            let s3 = spec_set(s2, tp, Some(BoardPiece { owner, piece_type: moved }));
            lemma_set_hash_offset(s2, tp, Some(BoardPiece { owner, piece_type: moved }));
            lemma_flip_hash_offset(s3);
        },
    }
}

/// Moves that the move generators produce: the origin holds a piece of the
/// side to move that is not already promoted when the move promotes, and a
/// drop lands on an empty square.
pub open spec fn law_ok(s: State, m: Move) -> bool {
    &&& s.wf()
    &&& move_ok(s, m)
    &&& match m.drop {
        Some(_) => s.at(move_to_pos(m).spec_idx()) is None,
        None => {
            let src = s.at(move_from_pos(m).spec_idx()).unwrap();
            &&& move_from_pos(m) != move_to_pos(m)
            &&& src.owner == s.side_to_move
            &&& (m.promote ==> !src.piece_type.spec_is_promoted())
        },
    }
}

pub proof fn lemma_pos_of_idx(p: Pos)
    requires
        p.spec_valid(),
    ensures
        pos_of(p.spec_idx()) == p,
        0 <= p.spec_idx() < 81,
{
}

pub proof fn lemma_idx_injective(p: Pos, q: Pos)
    requires
        p.spec_valid(),
        q.spec_valid(),
        p.spec_idx() == q.spec_idx(),
    ensures
        p == q,
{
    lemma_pos_of_idx(p);
    lemma_pos_of_idx(q);
}

/// `set` keeps the king cache sound and complete as long as it does not
/// place a second king of a side on the board.
pub proof fn lemma_set_wf(s: State, pos: Pos, piece: Option<BoardPiece>)
    requires
        s.wf(),
        pos.spec_valid(),
        piece matches Some(bp) ==> (bp.piece_type == PieceType::K ==> s.king_cache(bp.owner) is None
            || s.king_cache(bp.owner) == Some(pos)),
    ensures
        spec_set(s, pos, piece).wf(),
{
    let t = spec_set(s, pos, piece);
    let i = pos.spec_idx();
    lemma_pos_of_idx(pos);
    assert(t.board@ == s.board@.update(i, piece));
    assert forall|o: Owner| #[trigger] t.king_cache(o) is Some implies t.king_cache(o).unwrap().spec_valid()
        && t.at(t.king_cache(o).unwrap().spec_idx()) == king_of(o) by {
        let p = t.king_cache(o).unwrap();
        let sets = piece matches Some(bp) && bp.piece_type == PieceType::K && bp.owner == o;
        if sets {
            assert(p == pos);
            assert(t.at(i) == piece);
        } else if p == pos {
            assert(s.king_cache(o) == Some(pos));
            assert(s.at(i) == king_of(o));
            assert(false);
        } else {
            assert(s.king_cache(o) == Some(p));
            if p.spec_idx() == i {
                lemma_idx_injective(p, pos);
            }
            assert(t.at(p.spec_idx()) == s.at(p.spec_idx()));
        }
    }
    assert forall|j: int|
        0 <= j < 81 && (#[trigger] t.at(j) matches Some(bp) && bp.piece_type == PieceType::K)
            implies t.king_cache(t.at(j).unwrap().owner) == Some(pos_of(j)) by {
        if j != i {
            let o = t.at(j).unwrap().owner;
            assert(s.at(j) == t.at(j));
            if s.king_cache(o) == Some(pos) {
                lemma_pos_of_idx(pos);
            }
        }
    }
}

pub proof fn lemma_wf_same(s: State, t: State)
    requires
        s.wf(),
        s.board@ == t.board@,
        s.attacker_king == t.attacker_king,
        s.defender_king == t.defender_king,
    ensures
        t.wf(),
{
    assert forall|o: Owner| #[trigger] t.king_cache(o) is Some implies t.king_cache(o).unwrap().spec_valid()
        && t.at(t.king_cache(o).unwrap().spec_idx()) == king_of(o) by {
        assert(s.king_cache(o) == t.king_cache(o));
    }
    assert forall|j: int|
        0 <= j < 81 && (#[trigger] t.at(j) matches Some(bp) && bp.piece_type == PieceType::K)
            implies t.king_cache(t.at(j).unwrap().owner) == Some(pos_of(j)) by {
        assert(s.at(j) == t.at(j));
    }
}

/// Law: a generated move keeps the king cache sound and complete.
pub proof fn lemma_apply_wf(s: State, m: Move)
    requires
        law_ok(s, m),
    ensures
        spec_apply(s, m).wf(),
{
    let owner = s.side_to_move;
    let tp = move_to_pos(m);
    match m.drop {
        Some(d) => {
            let c = s.hands.count(owner, d);
            let s1 = spec_hand_change(s, owner, d, (c - 1) as u8);
            lemma_wf_same(s, s1);
            lemma_set_wf(s1, tp, Some(BoardPiece { owner, piece_type: d }));
            let s3 = spec_set(s1, tp, Some(BoardPiece { owner, piece_type: d }));
            lemma_wf_same(s3, spec_apply(s, m));
        },
        None => {
            let fp = move_from_pos(m);
            let src = s.at(fp.spec_idx()).unwrap();
            let s1 = match s.at(tp.spec_idx()) {
                Some(cap) => if cap.piece_type.spec_unpromote() != PieceType::K {
                    let ct = cap.piece_type.spec_unpromote();
                    spec_hand_change(s, owner, ct, (s.hands.count(owner, ct) + 1) as u8)
                } else {
                    s
                },
                None => s,
            };
            lemma_wf_same(s, s1);
            lemma_set_wf(s1, fp, None);
            let s2 = spec_set(s1, fp, None);
            let moved = if m.promote {
                src.piece_type.spec_promote()
            } else {
                src.piece_type
            };
            lemma_pos_of_idx(fp);
            lemma_pos_of_idx(tp);
            if moved == PieceType::K {
                assert(src.piece_type == PieceType::K);
                assert(s.king_cache(owner) == Some(fp));
                assert(s2.king_cache(owner) is None);
            }
            lemma_set_wf(s2, tp, Some(BoardPiece { owner, piece_type: moved }));
            let s3 = spec_set(s2, tp, Some(BoardPiece { owner, piece_type: moved }));
            lemma_wf_same(s3, spec_apply(s, m));
        },
    }
}

/// Law: taking back a generated move restores the position exactly, hash and
/// king cache included.
#[verifier::rlimit(50)]
pub proof fn lemma_undo_after_apply(s: State, m: Move)
    requires
        law_ok(s, m),
    ensures
        undo_ok(spec_apply(s, m), m, UndoInfo { captured: spec_captured(s, m) }),
        spec_undo(spec_apply(s, m), m, UndoInfo { captured: spec_captured(s, m) }) == s,
{
    let owner = s.side_to_move;
    let tp = move_to_pos(m);
    let a = spec_apply(s, m);
    let u = UndoInfo { captured: spec_captured(s, m) };
    let r = spec_undo(a, m, u);
    lemma_pos_of_idx(tp);
    match m.drop {
        Some(d) => {
            let c = s.hands.count(owner, d);
            let s1 = spec_hand_change(s, owner, d, (c - 1) as u8);
            let s3 = spec_set(s1, tp, Some(BoardPiece { owner, piece_type: d }));
            crate::pieces::lemma_hands_with_count(s.hands, owner, d, (c - 1) as u8, owner, d);
            let r1 = State {
                side_to_move: a.side_to_move.spec_opposite(),
                zobrist_hash: a.zobrist_hash ^ side_key(),
                ..a
            };
            let r2 = spec_set(r1, tp, None);
            assert(r2.hands == s1.hands);
            assert(r.hands.attacker@ =~= s.hands.attacker@);
            assert(r.hands.defender@ =~= s.hands.defender@);
            assert(r.board@ =~= s.board@);
            let z = s.zobrist_hash;
            let k1 = hand_key(owner, d, c);
            let k2 = hand_key(owner, d, (c - 1) as u8);
            let q = sq_hash(Some(BoardPiece { owner, piece_type: d }), tp.spec_idx());
            let sk = side_key();
            assert(((((((z ^ k1 ^ k2) ^ 0 ^ q) ^ sk) ^ sk) ^ q ^ 0) ^ k2 ^ k1) == z) by (bit_vector);
            lemma_state_ext(r, s);
        },
        None => {
            let fp = move_from_pos(m);
            lemma_pos_of_idx(fp);
            let src = s.at(fp.spec_idx()).unwrap();
            let cap = s.at(tp.spec_idx());
            let s1 = match cap {
                Some(c) => if c.piece_type.spec_unpromote() != PieceType::K {
                    let ct = c.piece_type.spec_unpromote();
                    spec_hand_change(s, owner, ct, (s.hands.count(owner, ct) + 1) as u8)
                } else {
                    s
                },
                None => s,
            };
            let s2 = spec_set(s1, fp, None);
            let moved = if m.promote {
                src.piece_type.spec_promote()
            } else {
                src.piece_type
            };
            let s3 = spec_set(s2, tp, Some(BoardPiece { owner, piece_type: moved }));
            let r1 = State {
                side_to_move: a.side_to_move.spec_opposite(),
                zobrist_hash: a.zobrist_hash ^ side_key(),
                ..a
            };
            let orig = if m.promote {
                moved.spec_unpromote()
            } else {
                moved
            };
            assert(orig == src.piece_type) by {
                crate::pieces::lemma_promote_roundtrip(src.piece_type);
            }
            let r2 = spec_set(r1, tp, cap);
            let r3 = spec_set(r2, fp, Some(BoardPiece { owner, piece_type: orig }));
            assert(r3.board@ =~= s.board@);
            let z = s.zobrist_hash;
            let x1 = sq_hash(Some(src), fp.spec_idx());
            let x2 = sq_hash(cap, tp.spec_idx());
            let y2 = sq_hash(Some(BoardPiece { owner, piece_type: moved }), tp.spec_idx());
            let sk = side_key();
            match cap {
                Some(c) => {
                    if c.piece_type.spec_unpromote() != PieceType::K {
                        let ct = c.piece_type.spec_unpromote();
                        let n0 = s.hands.count(owner, ct);
                        crate::pieces::lemma_hands_with_count(s.hands, owner, ct, (n0 + 1) as u8, owner, ct);
                        assert(r3.hands == s1.hands);
                        let k1 = hand_key(owner, ct, n0);
                        let k2 = hand_key(owner, ct, (n0 + 1) as u8);
                        assert(((((((((z ^ k1 ^ k2) ^ x1 ^ 0) ^ x2 ^ y2) ^ sk) ^ sk) ^ y2 ^ x2) ^ 0 ^ x1) ^ k2 ^ k1) == z) by (bit_vector);
                        assert(r.hands.attacker@ =~= s.hands.attacker@);
                        assert(r.hands.defender@ =~= s.hands.defender@);
                    } else {
                        assert((((((z ^ x1 ^ 0) ^ x2 ^ y2) ^ sk) ^ sk) ^ y2 ^ x2) ^ 0 ^ x1 == z) by (bit_vector);
                    }
                },
                None => {
                    assert((((((z ^ x1 ^ 0) ^ x2 ^ y2) ^ sk) ^ sk) ^ y2 ^ x2) ^ 0 ^ x1 == z) by (bit_vector);
                },
            }
            if src.piece_type == PieceType::K {
                assert(s.king_cache(owner) == Some(fp));
            }
            if let Some(c) = cap {
                if c.piece_type == PieceType::K {
                    assert(s.king_cache(c.owner) == Some(tp));
                }
            }
            lemma_state_ext(r, s);
        },
    }
}

/// Two distinct occupied squares make a count of at least two.
pub proof fn lemma_board_count_two(b: Seq<Option<BoardPiece>>, i: int, j: int)
    requires
        0 <= i < b.len(),
        0 <= j < b.len(),
        i != j,
        b[i] is Some,
        b[j] is Some,
    ensures
        board_count(b) >= 2,
{
    lemma_board_count_update(b, i, None);
    lemma_board_count_update(b.update(i, None), j, None);
    assert(board_count(b.update(i, None)) >= 1);
}

/// With room, capturing never overflows a hand count.
pub proof fn lemma_room_capture(s: State, m: Move)
    requires
        s.room(),
        m.drop is None,
        m.from is Some,
        move_from_pos(m).spec_valid(),
        move_to_pos(m).spec_valid(),
        move_from_pos(m) != move_to_pos(m),
        s.at(move_from_pos(m).spec_idx()) is Some,
    ensures
        s.at(move_to_pos(m).spec_idx()) matches Some(c) ==> (c.piece_type.spec_unpromote()
            != PieceType::K ==> s.hands.count(s.side_to_move, c.piece_type.spec_unpromote()) < 255),
{
    let fp = move_from_pos(m);
    let tp = move_to_pos(m);
    lemma_pos_of_idx(fp);
    lemma_pos_of_idx(tp);
    if fp.spec_idx() == tp.spec_idx() {
        lemma_idx_injective(fp, tp);
    }
    if s.at(tp.spec_idx()) is Some {
        lemma_board_count_two(s.board@, fp.spec_idx(), tp.spec_idx());
    }
}

/// Law: a generated move keeps the room invariant.
pub proof fn lemma_apply_room(s: State, m: Move)
    requires
        law_ok(s, m),
        s.room(),
    ensures
        spec_apply(s, m).room(),
{
    let owner = s.side_to_move;
    let tp = move_to_pos(m);
    let a = spec_apply(s, m);
    lemma_pos_of_idx(tp);
    match m.drop {
        Some(d) => {
            lemma_board_count_update(s.board@, tp.spec_idx(), Some(BoardPiece { owner, piece_type: d }));
            assert(a.board@ == s.board@.update(tp.spec_idx(), Some(BoardPiece { owner, piece_type: d })));
            let c = s.hands.count(owner, d);
            assert(a.hands == s.hands.with_count(owner, d, (c - 1) as u8));
            let k = spec_hand_idx(d);
            if owner == Owner::Attacker {
                assert(a.hands.attacker@ == s.hands.attacker@.update(k, (c - 1) as u8));
                assert(a.hands.defender@ == s.hands.defender@);
            } else {
                assert(a.hands.defender@ == s.hands.defender@.update(k, (c - 1) as u8));
                assert(a.hands.attacker@ == s.hands.attacker@);
            }
            assert(hands_total(a.hands) + 1 == hands_total(s.hands));
        },
        None => {
            let fp = move_from_pos(m);
            lemma_pos_of_idx(fp);
            let src = s.at(fp.spec_idx()).unwrap();
            let moved = if m.promote {
                src.piece_type.spec_promote()
            } else {
                src.piece_type
            };
            let b1 = s.board@.update(fp.spec_idx(), None);
            let b2 = b1.update(tp.spec_idx(), Some(BoardPiece { owner, piece_type: moved }));
            if fp.spec_idx() == tp.spec_idx() {
                lemma_idx_injective(fp, tp);
            }
            lemma_board_count_update(s.board@, fp.spec_idx(), None);
            lemma_board_count_update(b1, tp.spec_idx(), Some(BoardPiece { owner, piece_type: moved }));
            assert(a.board@ == b2);
            match s.at(tp.spec_idx()) {
                Some(cap) => {
                    assert(board_count(a.board@) + 1 == board_count(s.board@));
                    if cap.piece_type.spec_unpromote() != PieceType::K {
                        let ct = cap.piece_type.spec_unpromote();
                        let c = s.hands.count(owner, ct);
                        let k = spec_hand_idx(ct);
                        assert(a.hands == s.hands.with_count(owner, ct, (c + 1) as u8));
                        if owner == Owner::Attacker {
                            assert(a.hands.attacker@ == s.hands.attacker@.update(k, (c + 1) as u8));
                            assert(a.hands.defender@ == s.hands.defender@);
                        } else {
                            assert(a.hands.defender@ == s.hands.defender@.update(k, (c + 1) as u8));
                            assert(a.hands.attacker@ == s.hands.attacker@);
                        }
                        assert(hands_total(a.hands) == hands_total(s.hands) + 1);
                    } else {
                        assert(a.hands == s.hands);
                    }
                },
                None => {
                    assert(board_count(a.board@) == board_count(s.board@));
                    assert(a.hands == s.hands);
                },
            }
        },
    }
}

/// Each hand count is part of the hand total.
pub proof fn lemma_hands_total_parts(h: Hands, k: int)
    requires
        0 <= k < 7,
    ensures
        h.attacker@[k] <= hands_total(h),
        h.defender@[k] <= hands_total(h),
{
}

} // verus!

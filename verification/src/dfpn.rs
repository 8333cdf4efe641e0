use vstd::prelude::*;
use crate::pieces::{Move, Owner, PieceType, Pos, BoardPiece, is_sliding_piece, promotion_zone};
use crate::state::{
    State, spec_apply, make_move, undo_move, lemma_apply_wf, lemma_apply_room, lemma_undo_after_apply,
    law_ok, move_to_pos, move_from_pos, lemma_idx_injective, lemma_room_capture, spec_captured,
};
use crate::attacks::{
    spec_in_check, is_in_check, find_checkers, is_between, lemma_checkers_ok, checker_ok, spec_checkers,
};
use crate::movegen::{legal_board_moves, spec_legal_board_moves};
use crate::legal::{
    legal_drop_moves, legal_check_moves, spec_legal_drops, spec_legal_check_moves, has_any_legal_move,
    spec_has_legal, state_has_dead_end_pieces, spec_has_dead_end_pieces,
};
use crate::search::{
    playable, all_playable, lemma_legal_lists_playable, lemma_attacker_moves_playable, attacker_moves,
    lemma_recapture_ok,
};
use crate::pieces::spec_hand_idx;
use rustc_hash::FxHashMap;

verus! {

broadcast use vstd::array::group_array_axioms;

/// The "infinite" proof and disproof number.
pub const INF: u32 = 2147483647;

/// The node budget of a fresh solver.
pub const DEFAULT_NODE_LIMIT: u64 = 50_000_000;

/// The number of pieces of each kind in a full set, in hand order.
fn hand_max() -> (r: [u8; 7])
    ensures
        r@ == seq![2u8, 2u8, 4u8, 4u8, 4u8, 4u8, 18u8],
{
    let r: [u8; 7] = [2, 2, 4, 4, 4, 4, 18];
    assert(r@ =~= seq![2u8, 2u8, 4u8, 4u8, 4u8, 4u8, 18u8]);
    r
}

/// Every count of `a` is at least the count of `b`.
pub open spec fn spec_dominates(a: Seq<u8>, b: Seq<u8>) -> bool {
    forall|k: int| 0 <= k < 7 ==> #[trigger] a[k] >= b[k]
}

/// Whether hand `a` holds at least as many pieces of every kind as `b`.
pub fn hand_dominates(a: &[u8; 7], b: &[u8; 7]) -> (r: bool)
    ensures
        r == spec_dominates(a@, b@),
{
    let r = a[0] >= b[0] && a[1] >= b[1] && a[2] >= b[2] && a[3] >= b[3] && a[4] >= b[4] && a[5] >= b[5]
        && a[6] >= b[6];
    proof {
        if !r {
            assert(!spec_dominates(a@, b@)) by {
                if a[0] < b[0] {
                    assert(!(a@[0] >= b@[0]));
                } else if a[1] < b[1] {
                    assert(!(a@[1] >= b@[1]));
                } else if a[2] < b[2] {
                    assert(!(a@[2] >= b@[2]));
                } else if a[3] < b[3] {
                    assert(!(a@[3] >= b@[3]));
                } else if a[4] < b[4] {
                    assert(!(a@[4] >= b@[4]));
                } else if a[5] < b[5] {
                    assert(!(a@[5] >= b@[5]));
                } else {
                    assert(!(a@[6] >= b@[6]));
                }
            }
        }
    }
    r
}

/// The larger count of each kind.
pub fn hand_union(a: &[u8; 7], b: &[u8; 7]) -> (r: [u8; 7])
    ensures
        forall|k: int| 0 <= k < 7 ==> #[trigger] r@[k] == if a@[k] >= b@[k] { a@[k] } else { b@[k] },
{
    let mut r: [u8; 7] = [0; 7];
    let mut i: usize = 0;
    while i < 7
        invariant
            i <= 7,
            forall|k: int| 0 <= k < i ==> #[trigger] r@[k] == if a@[k] >= b@[k] { a@[k] } else { b@[k] },
        decreases 7 - i,
    {
        r[i] = if a[i] >= b[i] { a[i] } else { b[i] };
        i = i + 1;
    }
    r
}

/// The transposition-table key of a position searched to `depth`: its hash
/// mixed with the depth.
#[verifier::opaque]
pub open spec fn tt_key_spec(s: State, depth: u32) -> u64 {
    s.zobrist_hash.wrapping_mul(0x9E3779B97F4A7C15u64).wrapping_add(depth as u64)
}

/// The transposition-table key of a position searched to `depth`.
fn tt_key(state: &State, depth: u32) -> (r: u64)
    ensures
        r == tt_key_spec(*state, depth),
{
    proof {
        reveal(tt_key_spec);
    }
    state.zobrist_hash.wrapping_mul(0x9E3779B97F4A7C15u64).wrapping_add(depth as u64)
}

/// The dominance-table key: the board (hands left out) and `depth`.
fn dom_key(state: &State, depth: u32) -> u64 {
    state.board_only_zobrist().wrapping_mul(0x517CC1B727220A95u64).wrapping_add(depth as u64)
}

/// Proof pieces (an attacker hand enough to mate) and disproof pieces (an
/// attacker hand too small to mate) remembered for a board.
#[derive(Debug, Clone, Copy)]
pub struct DomEntry {
    pub proof_pieces: Option<[u8; 7]>,
    pub disproof_pieces: Option<[u8; 7]>,
}

/// A transposition-table entry: proof and disproof numbers, with the proof
/// pieces (valid when `pn` is 0) and the disproof pieces (when `dn` is 0).
#[derive(Debug, Clone, Copy)]
pub struct TtEntry {
    pub pn: u32,
    pub dn: u32,
    pub proof_pieces: [u8; 7],
    pub disproof_pieces: [u8; 7],
}

/// `HashMap::get` on the transposition table: the entry under `k`, if any.
#[verifier::external_body]
fn tt_get(tt: &FxHashMap<u64, TtEntry>, k: u64) -> (r: Option<TtEntry>)
    ensures
        match r {
            Some(e) => tt@.dom().contains(k) && e == tt@[k],
            None => !tt@.dom().contains(k),
        },
{
    tt.get(&k).copied()
}

/// `HashMap::insert` on the transposition table.
#[verifier::external_body]
fn tt_insert(tt: &mut FxHashMap<u64, TtEntry>, k: u64, e: TtEntry)
    ensures
        final(tt)@ == old(tt)@.insert(k, e),
{
    tt.insert(k, e);
}

/// `HashMap::get` on the dominance table: the entries under `k`, cloned.
#[verifier::external_body]
fn dom_get(dom: &FxHashMap<u64, Vec<DomEntry>>, k: u64) -> (r: Option<Vec<DomEntry>>)
    ensures
        match r {
            Some(v) => dom@.dom().contains(k) && v@ == dom@[k]@,
            None => !dom@.dom().contains(k),
        },
{
    dom.get(&k).cloned()
}

/// `HashMap::insert` on the dominance table.
#[verifier::external_body]
fn dom_insert(dom: &mut FxHashMap<u64, Vec<DomEntry>>, k: u64, v: Vec<DomEntry>)
    ensures
        final(dom)@ == old(dom)@.insert(k, v),
{
    dom.insert(k, v);
}

/// The proof and disproof numbers stored under `k`, (1, 1) for a node not
/// yet expanded.
pub open spec fn tt_numbers(tt: Map<u64, TtEntry>, k: u64) -> (u32, u32) {
    if tt.dom().contains(k) {
        (tt[k].pn, tt[k].dn)
    } else {
        (1, 1)
    }
}

/// The entry under `k` settles a shallow search of `s` to `depth` as the
/// direct searches do: no mate with no plies left, a mate in one at depth 1,
/// a mate in three at depth 3.
pub open spec fn settled_shallow(tt: Map<u64, TtEntry>, k: u64, s: State, depth: u32) -> bool {
    &&& depth == 0 ==> tt.dom().contains(k) && tt[k].pn != 0
    &&& depth == 1 ==> tt.dom().contains(k) && (tt[k].pn == 0 <==> spec_mate_in_1(s))
    &&& depth == 3 ==> tt.dom().contains(k) && (tt[k].pn == 0 <==> spec_mate_in_3(s))
}

/// The df-pn solver: a transposition table, a dominance table and a node
/// budget.
pub struct DfpnSolver {
    tt: FxHashMap<u64, TtEntry>,
    dom: FxHashMap<u64, Vec<DomEntry>>,
    node_count: u64,
    node_limit: u64,
}

impl DfpnSolver {
    pub closed spec fn spec_node_count(&self) -> u64 {
        self.node_count
    }

    pub closed spec fn spec_node_limit(&self) -> u64 {
        self.node_limit
    }

    /// Both tables are empty: nothing has been searched yet.
    pub closed spec fn spec_fresh(&self) -> bool {
        self.tt@ == Map::<u64, TtEntry>::empty() && self.dom@ == Map::<u64, Vec<DomEntry>>::empty()
    }

    /// The table holds proof number 0 under the key of position `s` searched
    /// to `depth` (see `tt_key_spec`).
    pub closed spec fn spec_proven(&self, s: State, depth: u32) -> bool {
        tt_numbers(self.tt@, tt_key_spec(s, depth)).0 == 0
    }

    /// A solver with empty tables and the default node budget.
    pub fn new() -> (r: Self)
        ensures
            r.spec_node_count() == 0,
            r.spec_node_limit() == DEFAULT_NODE_LIMIT,
            r.spec_fresh(),
    {
        DfpnSolver { tt: FxHashMap::default(), dom: FxHashMap::default(), node_count: 0, node_limit: DEFAULT_NODE_LIMIT }
    }

    /// The same solver with node budget `limit`.
    pub fn with_node_limit(self, limit: u64) -> (r: Self)
        ensures
            r.spec_node_limit() == limit,
            r.spec_node_count() == self.spec_node_count(),
            r.spec_fresh() == self.spec_fresh(),
    {
        let mut s = self;
        s.node_limit = limit;
        s
    }

    /// Change the node budget, keeping the tables.
    pub fn set_node_limit(&mut self, limit: u64)
        ensures
            final(self).spec_node_limit() == limit,
            final(self).spec_node_count() == old(self).spec_node_count(),
    {
        self.node_limit = limit;
    }

    /// The nodes expanded by the last `solve`.
    pub fn node_count(&self) -> (r: u64)
        ensures
            r == self.spec_node_count(),
    {
        self.node_count
    }

    fn lookup(&self, key: u64) -> (r: (u32, u32))
        ensures
            r == tt_numbers(self.tt@, key),
    {
        match tt_get(&self.tt, key) {
            Some(e) => (e.pn, e.dn),
            None => (1, 1),
        }
    }

    /// The proof pieces under `key`, when that node is proven.
    fn lookup_proof(&self, key: u64) -> (r: Option<[u8; 7]>)
        ensures
            r == (if self.tt@.dom().contains(key) && self.tt@[key].pn == 0 {
                Some(self.tt@[key].proof_pieces)
            } else {
                None
            }),
    {
        match tt_get(&self.tt, key) {
            Some(e) => if e.pn == 0 {
                Some(e.proof_pieces)
            } else {
                None
            },
            None => None,
        }
    }

    /// The disproof pieces under `key`, when that node is disproven.
    fn lookup_disproof(&self, key: u64) -> (r: Option<[u8; 7]>)
        ensures
            r == (if self.tt@.dom().contains(key) && self.tt@[key].dn == 0 {
                Some(self.tt@[key].disproof_pieces)
            } else {
                None
            }),
    {
        match tt_get(&self.tt, key) {
            Some(e) => if e.dn == 0 {
                Some(e.disproof_pieces)
            } else {
                None
            },
            None => None,
        }
    }

    fn store_with_pieces(&mut self, key: u64, pn: u32, dn: u32, proof: [u8; 7], disproof: [u8; 7])
        ensures
            final(self).tt@ == old(self).tt@.insert(key, TtEntry { pn, dn, proof_pieces: proof, disproof_pieces: disproof }),
            final(self).dom == old(self).dom,
            final(self).node_count == old(self).node_count,
            final(self).node_limit == old(self).node_limit,
    {
        tt_insert(&mut self.tt, key, TtEntry { pn, dn, proof_pieces: proof, disproof_pieces: disproof });
    }

    fn store(&mut self, key: u64, pn: u32, dn: u32)
        ensures
            final(self).tt@ == old(self).tt@.insert(key, final(self).tt@[key]),
            final(self).tt@[key].pn == pn,
            final(self).tt@[key].dn == dn,
            final(self).tt@[key].proof_pieces@ == seq![0u8, 0u8, 0u8, 0u8, 0u8, 0u8, 0u8],
            final(self).tt@[key].disproof_pieces@ == seq![2u8, 2u8, 4u8, 4u8, 4u8, 4u8, 18u8],
            final(self).dom == old(self).dom,
            final(self).node_count == old(self).node_count,
            final(self).node_limit == old(self).node_limit,
    {
        let zeros: [u8; 7] = [0; 7];
        assert(zeros@ =~= seq![0u8, 0u8, 0u8, 0u8, 0u8, 0u8, 0u8]);
        self.store_with_pieces(key, pn, dn, zeros, hand_max());
    }

    /// Remember proof or disproof pieces for the board of `state` (at most
    /// four entries per board).
    fn register_dominance(&mut self, state: &State, depth: u32, proof: Option<[u8; 7]>, disproof: Option<[u8; 7]>)
        ensures
            final(self).tt == old(self).tt,
            final(self).node_count == old(self).node_count,
            final(self).node_limit == old(self).node_limit,
    {
        if proof.is_none() && disproof.is_none() {
            return;
        }
        let dk = dom_key(state, depth);
        let mut entries = match dom_get(&self.dom, dk) {
            Some(v) => v,
            None => Vec::new(),
        };
        if entries.len() < 4 {
            entries.push(DomEntry { proof_pieces: proof, disproof_pieces: disproof });
        }
        dom_insert(&mut self.dom, dk, entries);
    }

    /// Settle a node from the dominance table: mated when the attacker holds
    /// at least some proof pieces, not mated when it holds at most some
    /// disproof pieces (the first matching entry decides).
    fn check_dominance(&self, state: &State, depth: u32) -> (r: Option<(u32, u32, [u8; 7], [u8; 7])>)
        ensures
            r matches Some(v) ==> (v.0 == 0 && v.1 == INF && spec_dominates(state.hands.attacker@, v.2@)
                && v.3@ == seq![2u8, 2u8, 4u8, 4u8, 4u8, 4u8, 18u8]) || (v.0 == INF && v.1 == 0
                && spec_dominates(v.3@, state.hands.attacker@) && v.2@ == seq![0u8, 0u8, 0u8, 0u8, 0u8, 0u8, 0u8]),
            self.dom@ == Map::<u64, Vec<DomEntry>>::empty() ==> r is None,
    {
        let dk = dom_key(state, depth);
        let entries = match dom_get(&self.dom, dk) {
            Some(v) => v,
            None => {
                return None;
            },
        };
        let hand = state.hands.attacker;
        let mut i: usize = 0;
        while i < entries.len()
            invariant
                i <= entries@.len(),
                hand == state.hands.attacker,
                self.dom@.dom().contains(dk),
            decreases entries.len() - i,
        {
            let e = entries[i];
            if let Some(pp) = e.proof_pieces {
                if hand_dominates(&hand, &pp) {
                    return Some((0, INF, pp, hand_max()));
                }
            }
            if let Some(dp) = e.disproof_pieces {
                if hand_dominates(&dp, &hand) {
                    let zeros: [u8; 7] = [0; 7];
                    assert(zeros@ =~= seq![0u8, 0u8, 0u8, 0u8, 0u8, 0u8, 0u8]);
                    return Some((INF, 0, zeros, dp));
                }
            }
            i = i + 1;
        }
        None
    }
}

/// The side to move after `m` has a legal move.
#[verifier::opaque]
pub open spec fn escapes_after(s: State, m: Move) -> bool {
    spec_has_legal(spec_apply(s, m))
}

/// Some attacker check leaves the defender without a legal move.
pub open spec fn spec_mate_in_1(s: State) -> bool {
    exists|i: int| 0 <= i < spec_legal_check_moves(s).len() && !#[trigger] escapes_after(
        s,
        spec_legal_check_moves(s)[i],
    )
}

/// A mate in one, found directly: some checking move leaves the defender
/// without a legal move.
#[verifier::rlimit(40)]
pub fn is_mate_in_1(state: &mut State) -> (r: bool)
    requires
        old(state).wf(),
        old(state).room(),
    ensures
        *final(state) == *old(state),
        r == spec_mate_in_1(*old(state)),
{
    let ghost s0 = *state;
    let checks = legal_check_moves(state);
    proof {
        lemma_attacker_moves_playable(s0, true);
        assert(attacker_moves(s0, true) == spec_legal_check_moves(s0));
    }
    let mut k: usize = 0;
    while k < checks.len()
        invariant
            k <= checks@.len(),
            *state == s0,
            s0 == *old(state),
            s0.wf(),
            s0.room(),
            s0 == *old(state),
            checks@ == spec_legal_check_moves(s0),
            all_playable(s0, checks@),
            forall|j: int| 0 <= j < k ==> #[trigger] escapes_after(s0, checks@[j]),
        decreases checks.len() - k,
    {
        let m = checks[k];
        assert(playable(s0, checks@[k as int]));
        proof {
            lemma_apply_wf(s0, m);
            lemma_apply_room(s0, m);
            lemma_undo_after_apply(s0, m);
        }
        let undo = make_move(state, &m);
        let has_response = has_any_legal_move(state);
        undo_move(state, &m, &undo);
        proof {
            reveal(escapes_after);
            assert(has_response == escapes_after(s0, checks@[k as int]));
        }
        if !has_response {
            return true;
        }
        k = k + 1;
    }
    false
}

/// After `m` the side to move has a mate in one.
#[verifier::opaque]
pub open spec fn mate1_after(a: State, m: Move) -> bool {
    spec_mate_in_1(spec_apply(a, m))
}

/// Every reply in `ms` from `a` allows a mate in one.
pub open spec fn all_mate_in_1(a: State, ms: Seq<Move>) -> bool {
    forall|j: int| 0 <= j < ms.len() ==> #[trigger] mate1_after(a, ms[j])
}

/// A check after which the defender has replies, each allowing a mate in one.
#[verifier::opaque]
pub open spec fn mate3_by(s: State, m: Move) -> bool {
    let a = spec_apply(s, m);
    let bm = spec_legal_board_moves(a);
    let dm = spec_legal_drops(a);
    if bm.len() == 0 {
        dm.len() > 0 && all_mate_in_1(a, dm)
    } else {
        all_mate_in_1(a, bm) && all_mate_in_1(a, dm)
    }
}

pub open spec fn spec_mate_in_3(s: State) -> bool {
    exists|i: int| 0 <= i < spec_legal_check_moves(s).len() && #[trigger] mate3_by(s, spec_legal_check_moves(s)[i])
}

/// Whether every move of `ms` (playable from the current position) leads to
/// a mate in one.
fn replies_all_mated(state: &mut State, ms: &Vec<Move>) -> (r: bool)
    requires
        old(state).wf(),
        old(state).room(),
        all_playable(*old(state), ms@),
    ensures
        *final(state) == *old(state),
        r == all_mate_in_1(*old(state), ms@),
{
    let ghost s0 = *state;
    let mut k: usize = 0;
    while k < ms.len()
        invariant
            k <= ms@.len(),
            *state == s0,
            s0 == *old(state),
            s0.wf(),
            s0.room(),
            s0 == *old(state),
            all_playable(s0, ms@),
            forall|j: int| 0 <= j < k ==> #[trigger] mate1_after(s0, ms@[j]),
        decreases ms.len() - k,
    {
        let m = ms[k];
        assert(playable(s0, ms@[k as int]));
        proof {
            lemma_apply_wf(s0, m);
            lemma_apply_room(s0, m);
            lemma_undo_after_apply(s0, m);
        }
        let undo = make_move(state, &m);
        let mated = is_mate_in_1(state);
        undo_move(state, &m, &undo);
        proof {
            reveal(mate1_after);
            assert(mated == mate1_after(s0, ms@[k as int]));
        }
        if !mated {
            return false;
        }
        k = k + 1;
    }
    true
}

/// A mate in three, found directly: a check after which every defender
/// reply (there must be one) allows a mate in one.
#[verifier::rlimit(40)]
pub fn is_mate_in_3(state: &mut State) -> (r: bool)
    requires
        old(state).wf(),
        old(state).room(),
    ensures
        *final(state) == *old(state),
        r == spec_mate_in_3(*old(state)),
{
    let ghost s0 = *state;
    let checks = legal_check_moves(state);
    proof {
        lemma_attacker_moves_playable(s0, true);
        assert(attacker_moves(s0, true) == spec_legal_check_moves(s0));
    }
    let mut k: usize = 0;
    while k < checks.len()
        invariant
            k <= checks@.len(),
            *state == s0,
            s0 == *old(state),
            s0.wf(),
            s0.room(),
            s0 == *old(state),
            checks@ == spec_legal_check_moves(s0),
            all_playable(s0, checks@),
            forall|j: int| 0 <= j < k ==> !#[trigger] mate3_by(s0, checks@[j]),
        decreases checks.len() - k,
    {
        let m = checks[k];
        assert(playable(s0, checks@[k as int]));
        let ghost a = spec_apply(s0, m);
        proof {
            lemma_apply_wf(s0, m);
            lemma_apply_room(s0, m);
            lemma_undo_after_apply(s0, m);
            lemma_legal_lists_playable(a);
        }
        let undo = make_move(state, &m);
        let board_moves = legal_board_moves(state);
        let found = if board_moves.len() == 0 {
            let drop_moves = legal_drop_moves(state);
            if drop_moves.len() == 0 {
                false
            } else {
                replies_all_mated(state, &drop_moves)
            }
        } else {
            if replies_all_mated(state, &board_moves) {
                let drop_moves = legal_drop_moves(state);
                replies_all_mated(state, &drop_moves)
            } else {
                false
            }
        };
        undo_move(state, &m, &undo);
        proof {
            reveal(mate3_by);
            assert(found == mate3_by(s0, checks@[k as int]));
        }
        if found {
            return true;
        }
        k = k + 1;
    }
    false
}

/// The smallest of the first `n` numbers, `INF` for none.
pub open spec fn seq_min(v: Seq<u32>, n: nat) -> u32
    decreases n,
{
    if n == 0 || n > v.len() {
        INF
    } else {
        let m = seq_min(v, (n - 1) as nat);
        if v[n - 1] < m {
            v[n - 1]
        } else {
            m
        }
    }
}

/// The saturating sum of the first `n` numbers.
pub open spec fn sat_sum(v: Seq<u32>, n: nat) -> u32
    decreases n,
{
    if n == 0 || n > v.len() {
        0
    } else {
        let t = sat_sum(v, (n - 1) as nat) + v[n - 1];
        if t > u32::MAX {
            u32::MAX
        } else {
            t as u32
        }
    }
}

fn seq_min_exec(v: &Vec<u32>) -> (r: u32)
    ensures
        r == seq_min(v@, v@.len()),
{
    let mut m: u32 = INF;
    let mut i: usize = 0;
    while i < v.len()
        invariant
            i <= v@.len(),
            m == seq_min(v@, i as nat),
        decreases v.len() - i,
    {
        if v[i] < m {
            m = v[i];
        }
        i = i + 1;
    }
    m
}

fn sat_sum_exec(v: &Vec<u32>) -> (r: u32)
    ensures
        r == sat_sum(v@, v@.len()),
{
    let mut t: u32 = 0;
    let mut i: usize = 0;
    while i < v.len()
        invariant
            i <= v@.len(),
            t == sat_sum(v@, i as nat),
        decreases v.len() - i,
    {
        t = t.saturating_add(v[i]);
        i = i + 1;
    }
    t
}

/// The running scan for the smallest number and the second smallest: index
/// of the smallest (the first), smallest, second smallest, both starting at `INF`.
pub open spec fn best_scan(v: Seq<u32>, n: nat) -> (int, u32, u32)
    decreases n,
{
    if n == 0 || n > v.len() {
        (0, INF, INF)
    } else {
        let prev = best_scan(v, (n - 1) as nat);
        let p = v[n - 1];
        if p < prev.1 {
            (n - 1, p, prev.1)
        } else if p < prev.2 {
            (prev.0, prev.1, p)
        } else {
            prev
        }
    }
}

proof fn lemma_best_scan_idx(v: Seq<u32>, n: nat)
    requires
        n <= v.len(),
    ensures
        0 <= best_scan(v, n).0 < if n == 0 { 1 } else { n as int },
    decreases n,
{
    if n > 0 {
        lemma_best_scan_idx(v, (n - 1) as nat);
    }
}

/// The index of the smallest number (the first of equals) and the second
/// smallest number.
fn find_best(v: &Vec<u32>) -> (r: (usize, u32))
    ensures
        r.0 as int == best_scan(v@, v@.len()).0,
        r.1 == best_scan(v@, v@.len()).2,
        v@.len() > 0 ==> r.0 < v@.len(),
{
    let mut best_idx: usize = 0;
    let mut min_v: u32 = INF;
    let mut second: u32 = INF;
    let mut i: usize = 0;
    while i < v.len()
        invariant
            i <= v@.len(),
            (best_idx as int, min_v, second) == best_scan(v@, i as nat),
        decreases v.len() - i,
    {
        let p = v[i];
        if p < min_v {
            second = min_v;
            min_v = p;
            best_idx = i;
        } else if p < second {
            second = p;
        }
        i = i + 1;
    }
    proof {
        lemma_best_scan_idx(v@, v@.len());
    }
    (best_idx, second)
}

/// The hand slot of a kind that can be held in hand.
fn hand_slot(t: PieceType) -> (r: usize)
    requires
        t.spec_is_hand_type(),
    ensures
        r as int == spec_hand_idx(t),
        r < 7,
{
    match t {
        PieceType::R => 0,
        PieceType::B => 1,
        PieceType::G => 2,
        PieceType::S => 3,
        PieceType::N => 4,
        PieceType::L => 5,
        _ => 6,
    }
}

/// Carry a child's proof or disproof pieces back over the move that led to
/// it: a dropped piece was needed, a captured piece was not yet held.
fn back_over_move(pieces: [u8; 7], m: &Move, captured: Option<BoardPiece>) -> (r: [u8; 7])
    requires
        m.drop matches Some(d) ==> d.spec_is_hand_type(),
{
    let mut pp = pieces;
    if let Some(drop_type) = m.drop {
        let idx = hand_slot(drop_type);
        pp[idx] = pp[idx].saturating_add(1);
    }
    if let Some(cap) = captured {
        let cap_base = cap.piece_type.unpromote();
        if cap_base != PieceType::K {
            proof {
                assert(cap_base.spec_is_hand_type());
            }
            let idx = hand_slot(cap_base);
            pp[idx] = pp[idx].saturating_sub(1);
        }
    }
    pp
}

/// A sequence of moves that can be played one after another from `s`.
pub open spec fn replayable(s: State, line: Seq<Move>) -> bool
    decreases line.len(),
{
    line.len() == 0 || (playable(s, line[0]) && replayable(spec_apply(s, line[0]), line.drop_first()))
}

/// Playing `line` from `s` ends with the defender to move and in check.
pub open spec fn ends_in_check(s: State, line: Seq<Move>) -> bool
    decreases line.len(),
{
    if line.len() == 0 {
        s.side_to_move == Owner::Defender && spec_in_check(s, Owner::Defender)
    } else {
        ends_in_check(spec_apply(s, line[0]), line.drop_first())
    }
}

/// Keep only the moves that are not futile interpositions (checked with the
/// solver against the checker taking the interposed piece).
#[verifier::rlimit(40)]
fn filter_moves_if_wasteful(state: &mut State, moves: &Vec<Move>, depth: u32, solver: &mut DfpnSolver) -> (r: Vec<Move>)
    requires
        old(state).wf(),
        old(state).room(),
        old(state).side_to_move == Owner::Defender,
        all_playable(*old(state), moves@),
    ensures
        *final(state) == *old(state),
        all_playable(*old(state), r@),
        final(solver).node_limit == old(solver).node_limit,
    decreases depth, 0int,
{
    let ghost s0 = *state;
    if depth < 2 {
        return crate::search::copy_moves(moves);
    }
    let checkers = find_checkers(state, Owner::Defender);
    if checkers.len() != 1 {
        return crate::search::copy_moves(moves);
    }
    let (ck_pos, ck_bp) = checkers[0];
    if !is_sliding_piece(ck_bp.piece_type) {
        return crate::search::copy_moves(moves);
    }
    let kp = match state.king_pos(Owner::Defender) {
        Some(p) => p,
        None => {
            return crate::search::copy_moves(moves);
        },
    };
    proof {
        lemma_checkers_ok(s0, Owner::Defender);
        assert(checker_ok(s0, kp, Owner::Attacker, checkers@[0]));
    }
    let mut result: Vec<Move> = Vec::new();
    let mut k: usize = 0;
    while k < moves.len()
        invariant
            k <= moves@.len(),
            *state == s0,
            s0 == *old(state),
            s0.wf(),
            s0.room(),
            s0.side_to_move == Owner::Defender,
            all_playable(s0, moves@),
            all_playable(s0, result@),
            depth >= 2,
            ck_pos.spec_valid(),
            kp.spec_valid(),
            s0.at(ck_pos.spec_idx()) == Some(ck_bp),
            ck_bp.owner == Owner::Attacker,
            solver.node_limit == old(solver).node_limit,
        decreases moves.len() - k,
    {
        let m = moves[k];
        assert(playable(s0, moves@[k as int]));
        let to_pos = Pos::new(m.to[0], m.to[1]);
        let mut keep = true;
        if is_between(ck_pos, kp, to_pos) {
            let mut king_move = false;
            if let Some(from) = m.from {
                if let Some(bp) = state.get(Pos::new(from[0], from[1])) {
                    if bp.piece_type == PieceType::K {
                        king_move = true;
                    }
                }
            }
            if !king_move {
                let can_promote = ck_bp.piece_type.is_promotable() && (promotion_zone(ck_bp.owner, ck_pos.y)
                    || promotion_zone(ck_bp.owner, to_pos.y));
                let recapture = Move {
                    from: Some([ck_pos.x, ck_pos.y]),
                    to: [to_pos.x, to_pos.y],
                    drop: None,
                    promote: can_promote,
                };
                proof {
                    lemma_apply_wf(s0, m);
                    lemma_apply_room(s0, m);
                    lemma_undo_after_apply(s0, m);
                    assert(ck_pos != to_pos);
                    lemma_recapture_ok(s0, m, ck_pos, ck_bp);
                    assert(recapture == crate::search::recapture((ck_pos, ck_bp), to_pos));
                    let a = spec_apply(s0, m);
                    lemma_apply_wf(a, recapture);
                    lemma_apply_room(a, recapture);
                    lemma_undo_after_apply(a, recapture);
                }
                let undo1 = make_move(state, &m);
                let undo2 = make_move(state, &recapture);
                let child_key = tt_key(state, depth - 2);
                solver.mid(state, depth - 2, INF, INF);
                let (cpn, _) = solver.lookup(child_key);
                undo_move(state, &recapture, &undo2);
                undo_move(state, &m, &undo1);
                if cpn == 0 {
                    keep = false;
                }
            }
        }
        if keep {
            let ghost prev = result@;
            result.push(m);
            assert forall|j: int| 0 <= j < result@.len() implies #[trigger] playable(s0, result@[j]) by {
                if j < prev.len() {
                    assert(result@[j] == prev[j]);
                }
            }
        }
        k = k + 1;
    }
    result
}

impl DfpnSolver {
    /// Search until the node is settled or its proof or disproof number
    /// reaches its threshold (the core of df-pn).
    fn mid(&mut self, state: &mut State, depth: u32, th_pn: u32, th_dn: u32)
        requires
            old(state).wf(),
            old(state).room(),
        ensures
            *final(state) == *old(state),
            final(self).node_limit == old(self).node_limit,
            old(self).spec_fresh() && old(self).node_count < old(self).node_limit && th_pn > 1 && th_dn > 1
                && old(state).side_to_move == Owner::Attacker ==> settled_shallow(
                final(self).tt@,
                tt_key_spec(*old(state), depth),
                *old(state),
                depth,
            ),
        decreases depth, 2int,
    {
        let key = tt_key(state, depth);
        let (pn, dn) = self.lookup(key);
        if pn >= th_pn || dn >= th_dn {
            return;
        }
        if self.node_count >= self.node_limit {
            return;
        }
        if let Some((dom_pn, dom_dn, proof_pieces, disproof_pieces)) = self.check_dominance(state, depth) {
            self.store_with_pieces(key, dom_pn, dom_dn, proof_pieces, disproof_pieces);
            return;
        }
        self.node_count = self.node_count + 1;
        if state.side_to_move == Owner::Attacker {
            self.mid_or(state, depth, th_pn, th_dn, key);
        } else {
            self.mid_and(state, depth, th_pn, th_dn, key);
        }
    }

    /// The proof and disproof numbers of the children after each checking move.
    fn child_numbers(&self, state: &mut State, ms: &Vec<Move>, depth: u32, child_pn: &mut Vec<u32>, child_dn: &mut Vec<u32>)
        requires
            old(state).wf(),
            depth >= 1,
            all_playable(*old(state), ms@),
            old(child_pn)@.len() == ms@.len(),
            old(child_dn)@.len() == ms@.len(),
        ensures
            *final(state) == *old(state),
            final(child_pn)@.len() == ms@.len(),
            final(child_dn)@.len() == ms@.len(),
    {
        let ghost s0 = *state;
        let mut i: usize = 0;
        while i < ms.len()
            invariant
                i <= ms@.len(),
                *state == s0,
                s0 == *old(state),
                s0.wf(),
                depth >= 1,
                all_playable(s0, ms@),
                child_pn@.len() == ms@.len(),
                child_dn@.len() == ms@.len(),
            decreases ms.len() - i,
        {
            let m = ms[i];
            assert(playable(s0, ms@[i as int]));
            proof {
                lemma_apply_wf(s0, m);
                lemma_undo_after_apply(s0, m);
            }
            let undo = make_move(state, &m);
            let ck = tt_key(state, depth - 1);
            let (p, d) = self.lookup(ck);
            undo_move(state, &m, &undo);
            child_pn.set(i, p);
            child_dn.set(i, d);
            i = i + 1;
        }
    }

    /// OR node (the attacker to move): only checking moves are searched.
    fn mid_or(&mut self, state: &mut State, depth: u32, th_pn: u32, th_dn: u32, key: u64)
        requires
            old(state).wf(),
            old(state).room(),
        ensures
            *final(state) == *old(state),
            final(self).node_limit == old(self).node_limit,
            settled_shallow(final(self).tt@, key, *old(state), depth),
        decreases depth, 1int,
    {
        let ghost s0 = *state;
        let zeros: [u8; 7] = [0; 7];
        if depth == 0 {
            self.store_with_pieces(key, INF, 0, zeros, state.hands.attacker);
            self.register_dominance(state, depth, None, Some(state.hands.attacker));
            return;
        }
        if depth == 1 {
            if is_mate_in_1(state) {
                let pp = state.hands.attacker;
                self.store_with_pieces(key, 0, INF, pp, hand_max());
                self.register_dominance(state, depth, Some(pp), None);
            } else {
                let dp = state.hands.attacker;
                self.store_with_pieces(key, INF, 0, zeros, dp);
                self.register_dominance(state, depth, None, Some(dp));
            }
            return;
        }
        if depth == 3 {
            if is_mate_in_3(state) {
                let pp = state.hands.attacker;
                self.store_with_pieces(key, 0, INF, pp, hand_max());
                self.register_dominance(state, depth, Some(pp), None);
            } else {
                let dp = state.hands.attacker;
                self.store_with_pieces(key, INF, 0, zeros, dp);
                self.register_dominance(state, depth, None, Some(dp));
            }
            return;
        }
        let checks = legal_check_moves(state);
        proof {
            lemma_attacker_moves_playable(s0, true);
            assert(attacker_moves(s0, true) == spec_legal_check_moves(s0));
        }
        if checks.len() == 0 {
            let dp = state.hands.attacker;
            self.store_with_pieces(key, INF, 0, zeros, dp);
            self.register_dominance(state, depth, None, Some(dp));
            return;
        }
        let n = checks.len();
        let mut child_pn: Vec<u32> = vec![0u32; n];
        let mut child_dn: Vec<u32> = vec![0u32; n];
        let mut rounds: u64 = 0;
        loop
            invariant
                *state == s0,
                s0 == *old(state),
                s0.wf(),
                s0.room(),
                depth >= 2,
                depth != 3,
                n == checks@.len(),
                n > 0,
                all_playable(s0, checks@),
                child_pn@.len() == n,
                child_dn@.len() == n,
                self.node_limit == old(self).node_limit,
            decreases u64::MAX - rounds,
        {
            if self.node_count >= self.node_limit || rounds == u64::MAX {
                let min_pn = seq_min_exec(&child_pn);
                let sum_dn = sat_sum_exec(&child_dn);
                self.store(key, min_pn, if sum_dn < INF { sum_dn } else { INF });
                return;
            }
            rounds = rounds + 1;
            self.child_numbers(state, &checks, depth, &mut child_pn, &mut child_dn);
            let min_pn = seq_min_exec(&child_pn);
            let sum_dn_raw = sat_sum_exec(&child_dn);
            let sum_dn = if sum_dn_raw < INF { sum_dn_raw } else { INF };
            if min_pn == 0 {
                let pp = self.compute_or_proof(state, &checks, &child_pn, depth);
                self.store_with_pieces(key, 0, sum_dn, pp, hand_max());
                self.register_dominance(state, depth, Some(pp), None);
                return;
            }
            if sum_dn == 0 {
                let dp = self.compute_or_disproof(state, &checks, depth);
                self.store_with_pieces(key, min_pn, 0, zeros, dp);
                self.register_dominance(state, depth, None, Some(dp));
                return;
            }
            self.store(key, min_pn, sum_dn);
            if min_pn >= th_pn || sum_dn >= th_dn {
                return;
            }
            let (best_idx, second_pn) = find_best(&child_pn);
            let second_plus = second_pn.saturating_add(1);
            let c_th_pn = if th_pn < second_plus { th_pn } else { second_plus };
            let c_raw = th_dn.saturating_sub(sum_dn).saturating_add(child_dn[best_idx]);
            let c_th_dn = if c_raw < INF { c_raw } else { INF };
            let m = checks[best_idx];
            assert(playable(s0, checks@[best_idx as int]));
            proof {
                lemma_apply_wf(s0, m);
                lemma_apply_room(s0, m);
                lemma_undo_after_apply(s0, m);
            }
            let undo = make_move(state, &m);
            self.mid(state, depth - 1, c_th_pn, c_th_dn);
            undo_move(state, &m, &undo);
        }
    }

    /// The proof pieces of a proven OR node: those of its first proven child,
    /// carried back over the move.
    fn compute_or_proof(&self, state: &mut State, checks: &Vec<Move>, child_pn: &Vec<u32>, depth: u32) -> (r: [u8; 7])
        requires
            old(state).wf(),
            depth >= 1,
            all_playable(*old(state), checks@),
            child_pn@.len() == checks@.len(),
        ensures
            *final(state) == *old(state),
    {
        let ghost s0 = *state;
        let mut i: usize = 0;
        while i < checks.len()
            invariant
                i <= checks@.len(),
                *state == s0,
                s0 == *old(state),
                s0.wf(),
                depth >= 1,
                all_playable(s0, checks@),
                child_pn@.len() == checks@.len(),
            decreases checks.len() - i,
        {
            if child_pn[i] == 0 {
                let m = checks[i];
                assert(playable(s0, checks@[i as int]));
                proof {
                    lemma_apply_wf(s0, m);
                    lemma_undo_after_apply(s0, m);
                }
                let undo = make_move(state, &m);
                let ck = tt_key(state, depth - 1);
                let child_pp = match self.lookup_proof(ck) {
                    Some(p) => p,
                    None => state.hands.attacker,
                };
                let captured = undo.captured;
                undo_move(state, &m, &undo);
                return back_over_move(child_pp, &m, captured);
            }
            i = i + 1;
        }
        state.hands.attacker
    }

    /// The disproof pieces of a disproven OR node: the smallest, kind by
    /// kind, of its children's, each carried back over its move.
    fn compute_or_disproof(&self, state: &mut State, checks: &Vec<Move>, depth: u32) -> (r: [u8; 7])
        requires
            old(state).wf(),
            depth >= 1,
            all_playable(*old(state), checks@),
        ensures
            *final(state) == *old(state),
    {
        let ghost s0 = *state;
        let mut result = hand_max();
        let mut i: usize = 0;
        while i < checks.len()
            invariant
                i <= checks@.len(),
                *state == s0,
                s0 == *old(state),
                s0.wf(),
                depth >= 1,
                all_playable(s0, checks@),
            decreases checks.len() - i,
        {
            let m = checks[i];
            assert(playable(s0, checks@[i as int]));
            proof {
                lemma_apply_wf(s0, m);
                lemma_undo_after_apply(s0, m);
            }
            let undo = make_move(state, &m);
            let ck = tt_key(state, depth - 1);
            let child_dp = match self.lookup_disproof(ck) {
                Some(p) => p,
                None => state.hands.attacker,
            };
            let captured = undo.captured;
            undo_move(state, &m, &undo);
            let dp = back_over_move(child_dp, &m, captured);
            let mut j: usize = 0;
            while j < 7
                invariant
                    j <= 7,
                decreases 7 - j,
            {
                if dp[j] < result[j] {
                    result[j] = dp[j];
                }
                j = j + 1;
            }
            i = i + 1;
        }
        result
    }

    /// AND node (the defender to move): futile interpositions are left out.
    fn mid_and(&mut self, state: &mut State, depth: u32, th_pn: u32, th_dn: u32, key: u64)
        requires
            old(state).wf(),
            old(state).room(),
            old(state).side_to_move == Owner::Defender,
        ensures
            *final(state) == *old(state),
            final(self).node_limit == old(self).node_limit,
        decreases depth, 1int,
    {
        let ghost s0 = *state;
        let zeros: [u8; 7] = [0; 7];
        proof {
            lemma_legal_lists_playable(s0);
        }
        let board_moves = legal_board_moves(state);
        if board_moves.len() == 0 {
            let drop_moves = legal_drop_moves(state);
            if drop_moves.len() == 0 {
                if is_in_check(state, Owner::Defender) {
                    let pp = state.hands.attacker;
                    self.store_with_pieces(key, 0, INF, pp, hand_max());
                    self.register_dominance(state, depth, Some(pp), None);
                } else {
                    self.store(key, INF, 0);
                }
                return;
            }
        }
        if depth == 0 {
            let dp = state.hands.attacker;
            self.store_with_pieces(key, INF, 0, zeros, dp);
            self.register_dominance(state, depth, None, Some(dp));
            return;
        }
        let drop_moves = legal_drop_moves(state);
        let mut all_moves = crate::search::copy_moves(&board_moves);
        let mut drops_copy = crate::search::copy_moves(&drop_moves);
        all_moves.append(&mut drops_copy);
        proof {
            assert forall|j: int| 0 <= j < all_moves@.len() implies #[trigger] playable(s0, all_moves@[j]) by {
                if j < board_moves@.len() {
                    assert(all_moves@[j] == board_moves@[j]);
                } else {
                    assert(all_moves@[j] == drop_moves@[j - board_moves@.len()]);
                }
            }
        }
        let moves = filter_moves_if_wasteful(state, &all_moves, depth, self);
        let n = moves.len();
        let mut child_pn: Vec<u32> = vec![0u32; n];
        let mut child_dn: Vec<u32> = vec![0u32; n];
        let mut rounds: u64 = 0;
        loop
            invariant
                *state == s0,
                s0 == *old(state),
                s0.wf(),
                s0.room(),
                depth >= 1,
                n == moves@.len(),
                all_playable(s0, moves@),
                child_pn@.len() == n,
                child_dn@.len() == n,
                self.node_limit == old(self).node_limit,
            decreases u64::MAX - rounds,
        {
            if self.node_count >= self.node_limit || rounds == u64::MAX {
                let sum_pn = sat_sum_exec(&child_pn);
                let min_dn = seq_min_exec(&child_dn);
                self.store(key, if sum_pn < INF { sum_pn } else { INF }, min_dn);
                return;
            }
            rounds = rounds + 1;
            let mut i: usize = 0;
            while i < n
                invariant
                    i <= n,
                    *state == s0,
                    s0 == *old(state),
                    s0.wf(),
                    s0.room(),
                    depth >= 1,
                    n == moves@.len(),
                    all_playable(s0, moves@),
                    child_pn@.len() == n,
                    child_dn@.len() == n,
                    self.node_limit == old(self).node_limit,
                decreases n - i,
            {
                let m = moves[i];
                assert(playable(s0, moves@[i as int]));
                proof {
                    lemma_apply_wf(s0, m);
                    lemma_undo_after_apply(s0, m);
                }
                let undo = make_move(state, &m);
                let ck = tt_key(state, depth - 1);
                let (p, d) = self.lookup(ck);
                if d == 0 {
                    let dp = match self.lookup_disproof(ck) {
                        Some(v) => v,
                        None => state.hands.attacker,
                    };
                    undo_move(state, &m, &undo);
                    self.store_with_pieces(key, INF, 0, zeros, dp);
                    self.register_dominance(state, depth, None, Some(dp));
                    return;
                }
                undo_move(state, &m, &undo);
                child_pn.set(i, p);
                child_dn.set(i, d);
                i = i + 1;
            }
            let sum_pn_raw = sat_sum_exec(&child_pn);
            let sum_pn = if sum_pn_raw < INF { sum_pn_raw } else { INF };
            let min_dn = seq_min_exec(&child_dn);
            if min_dn == INF && sum_pn == 0 {
                let pp = self.compute_and_proof(state, &moves, depth);
                self.store_with_pieces(key, 0, INF, pp, hand_max());
                self.register_dominance(state, depth, Some(pp), None);
                return;
            }
            if min_dn == 0 {
                let dp = self.compute_and_disproof(state, &moves, &child_dn, depth);
                self.store_with_pieces(key, sum_pn, 0, zeros, dp);
                self.register_dominance(state, depth, None, Some(dp));
                return;
            }
            self.store(key, sum_pn, min_dn);
            if sum_pn >= th_pn || min_dn >= th_dn {
                return;
            }
            let (best_idx, second_dn) = find_best(&child_dn);
            if n == 0 {
                return;
            }
            let second_plus = second_dn.saturating_add(1);
            let c_th_dn = if th_dn < second_plus { th_dn } else { second_plus };
            let c_raw = th_pn.saturating_sub(sum_pn).saturating_add(child_pn[best_idx]);
            let c_th_pn = if c_raw < INF { c_raw } else { INF };
            let m = moves[best_idx];
            assert(playable(s0, moves@[best_idx as int]));
            proof {
                lemma_apply_wf(s0, m);
                lemma_apply_room(s0, m);
                lemma_undo_after_apply(s0, m);
            }
            let undo = make_move(state, &m);
            self.mid(state, depth - 1, c_th_pn, c_th_dn);
            undo_move(state, &m, &undo);
        }
    }

    /// The proof pieces of a proven AND node: the largest, kind by kind, of
    /// its children's.
    fn compute_and_proof(&self, state: &mut State, moves: &Vec<Move>, depth: u32) -> (r: [u8; 7])
        requires
            old(state).wf(),
            depth >= 1,
            all_playable(*old(state), moves@),
        ensures
            *final(state) == *old(state),
    {
        let ghost s0 = *state;
        let mut result: [u8; 7] = [0; 7];
        let mut i: usize = 0;
        while i < moves.len()
            invariant
                i <= moves@.len(),
                *state == s0,
                s0 == *old(state),
                s0.wf(),
                depth >= 1,
                all_playable(s0, moves@),
            decreases moves.len() - i,
        {
            let m = moves[i];
            assert(playable(s0, moves@[i as int]));
            proof {
                lemma_apply_wf(s0, m);
                lemma_undo_after_apply(s0, m);
            }
            let undo = make_move(state, &m);
            let ck = tt_key(state, depth - 1);
            let child_pp = match self.lookup_proof(ck) {
                Some(p) => p,
                None => state.hands.attacker,
            };
            undo_move(state, &m, &undo);
            result = hand_union(&result, &child_pp);
            i = i + 1;
        }
        result
    }

    /// The disproof pieces of a disproven AND node: those of its first
    /// disproven child.
    fn compute_and_disproof(&self, state: &mut State, moves: &Vec<Move>, child_dn: &Vec<u32>, depth: u32) -> (r: [u8; 7])
        requires
            old(state).wf(),
            depth >= 1,
            all_playable(*old(state), moves@),
            child_dn@.len() == moves@.len(),
        ensures
            *final(state) == *old(state),
    {
        let ghost s0 = *state;
        let mut i: usize = 0;
        while i < moves.len()
            invariant
                i <= moves@.len(),
                *state == s0,
                s0 == *old(state),
                s0.wf(),
                depth >= 1,
                all_playable(s0, moves@),
                child_dn@.len() == moves@.len(),
            decreases moves.len() - i,
        {
            if child_dn[i] == 0 {
                let m = moves[i];
                assert(playable(s0, moves@[i as int]));
                proof {
                    lemma_apply_wf(s0, m);
                    lemma_undo_after_apply(s0, m);
                }
                let undo = make_move(state, &m);
                let ck = tt_key(state, depth - 1);
                let dp = match self.lookup_disproof(ck) {
                    Some(p) => p,
                    None => state.hands.attacker,
                };
                undo_move(state, &m, &undo);
                return dp;
            }
            i = i + 1;
        }
        state.hands.attacker
    }

    /// Whether the side to move in `state` is mated within `depth` plies as
    /// far as the node budget lets the search tell: the search runs from a
    /// node count of zero, and the answer is whether the table then holds
    /// proof number 0 for the position. On a solver that has searched nothing
    /// yet, with the attacker to move and a budget of at least one node, a
    /// search to 0, 1 or 3 plies answers as the direct searches do.
    pub fn solve(&mut self, state: &mut State, depth: u32) -> (r: bool)
        requires
            old(state).wf(),
            old(state).room(),
        ensures
            *final(state) == *old(state),
            r == final(self).spec_proven(*old(state), depth),
            final(self).spec_node_limit() == old(self).spec_node_limit(),
            old(self).spec_fresh() && old(self).spec_node_limit() > 0 && old(state).side_to_move
                == Owner::Attacker ==> {
                &&& depth == 0 ==> !r
                &&& depth == 1 ==> r == spec_mate_in_1(*old(state))
                &&& depth == 3 ==> r == spec_mate_in_3(*old(state))
            },
    {
        self.node_count = 0;
        self.mid(state, depth, INF, INF);
        let key = tt_key(state, depth);
        let (pn, _) = self.lookup(key);
        pn == 0
    }
}

impl DfpnSolver {
    /// The unique solution of a proven problem: at each attacker turn exactly
    /// one check must mate (unsettled children are searched on), at each
    /// defender turn every reply must be mated, and the longest reply line
    /// is followed. None when the solution is not unique or a reply escapes.
    #[verifier::rlimit(60)]
    pub fn extract_unique_solution(&mut self, state: &mut State, depth: u32) -> (r: Option<Vec<Move>>)
        requires
            old(state).wf(),
            old(state).room(),
        ensures
            *final(state) == *old(state),
            r matches Some(line) ==> replayable(*old(state), line@) && line@.len() <= depth
                && ends_in_check(*old(state), line@),
            old(state).side_to_move == Owner::Attacker && depth == 0 ==> r is None,
            old(state).side_to_move == Owner::Attacker ==> (r matches Some(line) ==> line@.len() > 0
                && spec_legal_check_moves(*old(state)).contains(line@[0])),
            old(state).side_to_move == Owner::Defender && spec_legal_board_moves(*old(state)).len() == 0
                && spec_legal_drops(*old(state)).len() == 0 ==> if spec_in_check(*old(state), Owner::Defender) {
                r matches Some(line) && line@.len() == 0
            } else {
                r is None
            },
        decreases depth,
    {
        let ghost s0 = *state;
        if state.side_to_move == Owner::Attacker {
            if depth == 0 {
                return None;
            }
            let checks = legal_check_moves(state);
            proof {
                lemma_attacker_moves_playable(s0, true);
                assert(attacker_moves(s0, true) == spec_legal_check_moves(s0));
            }
            let mut proven_moves: Vec<Move> = Vec::new();
            let mut k: usize = 0;
            while k < checks.len()
                invariant
                    k <= checks@.len(),
                    *state == s0,
                    s0 == *old(state),
                    s0.wf(),
                    s0.room(),
                    depth >= 1,
                    all_playable(s0, checks@),
                    all_playable(s0, proven_moves@),
                    checks@ == spec_legal_check_moves(s0),
                    s0.side_to_move == Owner::Attacker,
                    forall|j: int| 0 <= j < proven_moves@.len() ==> checks@.contains(#[trigger] proven_moves@[j]),
                decreases checks.len() - k,
            {
                let m = checks[k];
                assert(playable(s0, checks@[k as int]));
                proof {
                    lemma_apply_wf(s0, m);
                    lemma_apply_room(s0, m);
                    lemma_undo_after_apply(s0, m);
                }
                let undo = make_move(state, &m);
                let ck = tt_key(state, depth - 1);
                let (cpn, _) = self.lookup(ck);
                undo_move(state, &m, &undo);
                let mut proven = false;
                if cpn == 0 {
                    proven = true;
                } else if cpn < INF {
                    let undo = make_move(state, &m);
                    self.mid(state, depth - 1, INF, INF);
                    let ck2 = tt_key(state, depth - 1);
                    let (cpn2, _) = self.lookup(ck2);
                    undo_move(state, &m, &undo);
                    if cpn2 == 0 {
                        proven = true;
                    }
                }
                if proven {
                    let ghost prev = proven_moves@;
                    proven_moves.push(m);
                    assert forall|j: int| 0 <= j < proven_moves@.len() implies #[trigger] playable(s0, proven_moves@[j]) by {
                        if j < prev.len() {
                            assert(proven_moves@[j] == prev[j]);
                        }
                    }
                    assert(checks@[k as int] == m);
                    assert forall|j: int| 0 <= j < proven_moves@.len() implies checks@.contains(#[trigger] proven_moves@[j]) by {
                        if j < prev.len() {
                            assert(proven_moves@[j] == prev[j]);
                        }
                    }
                }
                if proven_moves.len() > 1 {
                    return None;
                }
                k = k + 1;
            }
            if proven_moves.len() != 1 {
                return None;
            }
            let m = proven_moves[0];
            assert(playable(s0, proven_moves@[0]));
            proof {
                lemma_apply_wf(s0, m);
                lemma_apply_room(s0, m);
                lemma_undo_after_apply(s0, m);
            }
            let undo = make_move(state, &m);
            let rest = self.extract_unique_solution(state, depth - 1);
            undo_move(state, &m, &undo);
            match rest {
                None => None,
                Some(rest) => {
                    let mut line = vec![m];
                    let mut rest = rest;
                    let ghost rv = rest@;
                    line.append(&mut rest);
                    proof {
                        assert(line@.drop_first() =~= rv);
                    }
                    Some(line)
                },
            }
        } else {
            proof {
                lemma_legal_lists_playable(s0);
            }
            let board_moves = legal_board_moves(state);
            if board_moves.len() == 0 {
                let drop_moves = legal_drop_moves(state);
                if drop_moves.len() == 0 {
                    if is_in_check(state, Owner::Defender) {
                        return Some(Vec::new());
                    } else {
                        return None;
                    }
                }
            }
            if depth == 0 {
                return None;
            }
            let mut best_line: Option<Vec<Move>> = None;
            let board_moves = filter_moves_if_wasteful(state, &board_moves, depth, self);
            match self.follow_replies(state, &board_moves, depth, &mut best_line) {
                false => {
                    return None;
                },
                true => {},
            }
            let drop_moves = legal_drop_moves(state);
            let drop_moves = filter_moves_if_wasteful(state, &drop_moves, depth, self);
            if board_moves.len() == 0 && drop_moves.len() == 0 {
                if is_in_check(state, Owner::Defender) {
                    return Some(Vec::new());
                } else {
                    return None;
                }
            }
            match self.follow_replies(state, &drop_moves, depth, &mut best_line) {
                false => {
                    return None;
                },
                true => {},
            }
            match best_line {
                Some(l) => Some(l),
                None => Some(Vec::new()),
            }
        }
    }

    /// For each defender reply: make sure it is mated (searching on when
    /// unsettled) and extract its line, keeping the longest (the first on
    /// ties). False when some reply escapes or its line cannot be extracted.
    fn follow_replies(&mut self, state: &mut State, moves: &Vec<Move>, depth: u32, best_line: &mut Option<Vec<Move>>) -> (r: bool)
        requires
            old(state).wf(),
            old(state).room(),
            depth >= 1,
            all_playable(*old(state), moves@),
            *old(best_line) matches Some(l) ==> replayable(*old(state), l@) && l@.len() <= depth
                && ends_in_check(*old(state), l@),
        ensures
            *final(state) == *old(state),
            *final(best_line) matches Some(l) ==> replayable(*old(state), l@) && l@.len() <= depth
                && ends_in_check(*old(state), l@),
            *old(best_line) is Some ==> *final(best_line) is Some,
            r && moves@.len() > 0 ==> *final(best_line) is Some,
        decreases depth, 0int,
    {
        let ghost s0 = *state;
        let mut k: usize = 0;
        while k < moves.len()
            invariant
                k <= moves@.len(),
                *state == s0,
                s0 == *old(state),
                s0.wf(),
                s0.room(),
                depth >= 1,
                all_playable(s0, moves@),
                *best_line matches Some(l) ==> replayable(s0, l@) && l@.len() <= depth && ends_in_check(s0, l@),
                *old(best_line) is Some ==> *best_line is Some,
                k > 0 ==> *best_line is Some,
            decreases moves.len() - k,
        {
            let m = moves[k];
            assert(playable(s0, moves@[k as int]));
            proof {
                lemma_apply_wf(s0, m);
                lemma_apply_room(s0, m);
                lemma_undo_after_apply(s0, m);
            }
            let undo = make_move(state, &m);
            let ck = tt_key(state, depth - 1);
            let (cpn, _) = self.lookup(ck);
            if cpn != 0 {
                if cpn < INF {
                    self.mid(state, depth - 1, INF, INF);
                    let ck2 = tt_key(state, depth - 1);
                    let (cpn2, _) = self.lookup(ck2);
                    if cpn2 != 0 {
                        undo_move(state, &m, &undo);
                        return false;
                    }
                } else {
                    undo_move(state, &m, &undo);
                    return false;
                }
            }
            let rest = self.extract_unique_solution(state, depth - 1);
            undo_move(state, &m, &undo);
            let rest = match rest {
                Some(r) => r,
                None => {
                    return false;
                },
            };
            let longer = match best_line {
                None => true,
                Some(b) => rest.len() + 1 > b.len(),
            };
            if longer {
                let mut full = vec![m];
                let mut rest = rest;
                let ghost rv = rest@;
                full.append(&mut rest);
                proof {
                    assert(full@.drop_first() =~= rv);
                }
                *best_line = Some(full);
            }
            k = k + 1;
        }
        true
    }
}

/// Whether the problem is mated in `mate_length` plies by df-pn (no
/// uniqueness check): false unless `mate_length` is odd, the attacker is to
/// move, the defender's king is on the board and not in check.
pub fn has_mate_at_depth(state: &mut State, mate_length: u32) -> (r: bool)
    requires
        old(state).wf(),
        old(state).room(),
    ensures
        *final(state) == *old(state),
        r ==> mate_length % 2 == 1 && old(state).side_to_move == Owner::Attacker && old(state).king_cache(
            Owner::Defender,
        ) is Some && !spec_in_check(*old(state), Owner::Defender),
        old(state).side_to_move == Owner::Attacker && old(state).king_cache(Owner::Defender) is Some
            && !spec_in_check(*old(state), Owner::Defender) ==> {
            &&& mate_length == 1 ==> r == spec_mate_in_1(*old(state))
            &&& mate_length == 3 ==> r == spec_mate_in_3(*old(state))
        },
{
    if mate_length % 2 == 0 {
        return false;
    }
    if state.side_to_move != Owner::Attacker {
        return false;
    }
    if state.king_pos(Owner::Defender).is_none() {
        return false;
    }
    if is_in_check(state, Owner::Defender) {
        return false;
    }
    let mut solver = DfpnSolver::new();
    solver.solve(state, mate_length)
}

/// Whether df-pn finds a mate in fewer (odd) plies than `mate_length`.
pub fn has_shorter_mate(state: &mut State, mate_length: u32) -> (r: bool)
    requires
        old(state).wf(),
        old(state).room(),
    ensures
        *final(state) == *old(state),
        mate_length <= 1 ==> !r,
        old(state).side_to_move == Owner::Attacker && mate_length >= 2 ==> {
            &&& spec_mate_in_1(*old(state)) ==> r
            &&& mate_length <= 3 ==> r == spec_mate_in_1(*old(state))
        },
{
    if mate_length <= 1 {
        return false;
    }
    let ghost s0 = *state;
    let mut solver = DfpnSolver::new();
    let mut d: u32 = 1;
    while d < mate_length
        invariant
            *state == s0,
            s0 == *old(state),
            s0.wf(),
            s0.room(),
            mate_length > 1,
            d % 2 == 1,
            d <= mate_length + 1,
            d == 1 ==> solver.spec_fresh() && solver.spec_node_limit() > 0,
            d > 1 && s0.side_to_move == Owner::Attacker ==> !spec_mate_in_1(s0),
        decreases mate_length + 1 - d,
    {
        if solver.solve(state, d) {
            return true;
        }
        d = d + 2;
    }
    false
}

/// The conditions a problem must meet before it is searched: odd length,
/// the attacker to move, the defender's king on the board, no piece that
/// could never move again, no check on the defender's king.
pub open spec fn dfpn_guards(s: State, n: nat) -> bool {
    n % 2 == 1 && s.side_to_move == Owner::Attacker && s.king_cache(Owner::Defender) is Some
        && !spec_has_dead_end_pieces(s) && !spec_in_check(s, Owner::Defender)
}

/// Validate a problem with df-pn: no shorter mate, a mate in `mate_length`
/// plies, and a unique solution, which is returned.
pub fn validate_tsume_dfpn(state: &mut State, mate_length: u32) -> (r: Option<Vec<Move>>)
    requires
        old(state).wf(),
        old(state).room(),
    ensures
        *final(state) == *old(state),
        !dfpn_guards(*old(state), mate_length as nat) ==> r is None,
        r matches Some(line) ==> replayable(*old(state), line@) && line@.len() <= mate_length
            && ends_in_check(*old(state), line@),
        mate_length >= 3 && spec_mate_in_1(*old(state)) ==> r is None,
        mate_length == 1 && !spec_mate_in_1(*old(state)) ==> r is None,
{
    if mate_length % 2 == 0 {
        return None;
    }
    if state.side_to_move != Owner::Attacker {
        return None;
    }
    if state.king_pos(Owner::Defender).is_none() {
        return None;
    }
    if state_has_dead_end_pieces(state) {
        return None;
    }
    if is_in_check(state, Owner::Defender) {
        return None;
    }
    let ghost s0 = *state;
    let mut solver = DfpnSolver::new();
    let mut d: u32 = 1;
    while d < mate_length
        invariant
            *state == s0,
            s0 == *old(state),
            s0.wf(),
            s0.room(),
            s0.side_to_move == Owner::Attacker,
            d % 2 == 1,
            mate_length % 2 == 1,
            d <= mate_length,
            d == 1 ==> solver.spec_fresh() && solver.spec_node_limit() > 0,
            d > 1 ==> !spec_mate_in_1(s0),
        decreases mate_length - d,
    {
        if solver.solve(state, d) {
            return None;
        }
        d = d + 2;
    }
    if !solver.solve(state, mate_length) {
        return None;
    }
    solver.extract_unique_solution(state, mate_length)
}

/// Validate a problem with df-pn in stages, cheapest first: a mate in
/// `mate_length` plies on a medium node budget (500000 up to five plies,
/// 2000000 for seven, 5000000 beyond), no shorter mate on a budget of
/// 1000000, then the unique solution on the full budget.
pub fn validate_tsume_dfpn_staged(state: &mut State, mate_length: u32) -> (r: Option<Vec<Move>>)
    requires
        old(state).wf(),
        old(state).room(),
    ensures
        *final(state) == *old(state),
        !dfpn_guards(*old(state), mate_length as nat) ==> r is None,
        r matches Some(line) ==> replayable(*old(state), line@) && line@.len() <= mate_length
            && ends_in_check(*old(state), line@),
        mate_length == 1 && !spec_mate_in_1(*old(state)) ==> r is None,
        mate_length == 3 && !spec_mate_in_3(*old(state)) ==> r is None,
{
    if mate_length % 2 == 0 {
        return None;
    }
    if state.side_to_move != Owner::Attacker {
        return None;
    }
    if state.king_pos(Owner::Defender).is_none() {
        return None;
    }
    if state_has_dead_end_pieces(state) {
        return None;
    }
    if is_in_check(state, Owner::Defender) {
        return None;
    }
    let ghost s0 = *state;
    let stage1_limit: u64 = if mate_length <= 5 {
        500_000
    } else if mate_length == 7 {
        2_000_000
    } else {
        5_000_000
    };
    let mut solver = DfpnSolver::new().with_node_limit(stage1_limit);
    if !solver.solve(state, mate_length) {
        return None;
    }
    solver.set_node_limit(1_000_000);
    let mut d: u32 = 1;
    while d < mate_length
        invariant
            *state == s0,
            s0 == *old(state),
            s0.wf(),
            s0.room(),
            d % 2 == 1,
            mate_length % 2 == 1,
            d <= mate_length,
        decreases mate_length - d,
    {
        if solver.solve(state, d) {
            return None;
        }
        d = d + 2;
    }
    solver.set_node_limit(DEFAULT_NODE_LIMIT);
    solver.extract_unique_solution(state, mate_length)
}

} // verus!

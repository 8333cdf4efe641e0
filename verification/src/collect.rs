use vstd::prelude::*;
use crate::pieces::{Move, Owner};
use crate::initial::{HandsData, InitialData, PieceData, kings_unique, hc_seq};
use crate::generate::{
    count_where, on_board, is_state_of, leftover_after, auto_result_ok, spec_score, slider_result_ok,
    lemma_count_where_le,
};
use crate::keys::{signature_chars, composition_chars, attacker_composition_chars};
use crate::state::State;
use crate::rng::Rng;

verus! {

/// How problems are looked for: random candidates (and their variations),
/// candidates unwound backwards from mated positions, or both.
#[derive(Debug, Clone, Copy, PartialEq, Eq, Structural)]
pub enum GenerateMethod {
    Random,
    Backward,
    Both,
}

/// Problems of the same make-up allowed in one set.
pub const MAX_PER_COMPOSITION: u32 = 3;

/// Problems with the same attacker make-up allowed in one set.
pub const MAX_PER_ATTACKER_COMPOSITION: u32 = 3;

/// A problem kept in a set, with its solution, its score and its keys.
pub struct Entry {
    pub initial: InitialData,
    pub solution: Vec<Move>,
    pub score: i32,
    pub signature: String,
    pub composition: String,
    pub attacker_composition: String,
}

/// The keys of an entry are those of its problem.
pub open spec fn entry_keys_ok(e: Entry) -> bool {
    &&& e.signature@ == signature_chars(e.initial)
    &&& e.composition@ == composition_chars(e.initial)
    &&& e.attacker_composition@ == attacker_composition_chars(e.initial)
}

/// Two problems are the same: same pieces in the same order, same hands,
/// same side to move.
pub open spec fn same_problem(a: InitialData, b: InitialData) -> bool {
    a.pieces@ == b.pieces@ && a.hands == b.hands && a.side_to_move == b.side_to_move
}

/// The problems of a set, without repeats and with a limited number of
/// problems of each make-up, in the order they were added.
pub struct PuzzleSet {
    entries: Vec<Entry>,
}

/// Problems of `es` with composition key `key`.
pub open spec fn with_key(es: Seq<Entry>, key: Seq<char>) -> spec_fn(int) -> bool {
    |i: int| 0 <= i < es.len() && es[i].composition@ == key
}

/// Problems of `es` with attacker composition key `key`.
pub open spec fn with_attacker_key(es: Seq<Entry>, key: Seq<char>) -> spec_fn(int) -> bool {
    |i: int| 0 <= i < es.len() && es[i].attacker_composition@ == key
}

/// No two entries hold the same problem or problems of the same structure.
pub open spec fn no_repeats(es: Seq<Entry>) -> bool {
    forall|i: int, j: int|
        0 <= i < j < es.len() ==> !same_problem(#[trigger] es[i].initial, #[trigger] es[j].initial)
            && es[i].signature@ != es[j].signature@
}

/// Whether problem `d` (or one of the same structure) is in `es`.
pub open spec fn seen(es: Seq<Entry>, d: InitialData) -> bool {
    exists|i: int| 0 <= i < es.len() && (same_problem(#[trigger] es[i].initial, d) || es[i].signature@ == signature_chars(d))
}

/// The problems of a set with their solutions and scores.
pub open spec fn entries_view(es: Seq<Entry>) -> Seq<(Seq<PieceData>, HandsData, Owner, Seq<Move>, i32)> {
    es.map_values(|e: Entry| (e.initial.pieces@, e.initial.hands, e.initial.side_to_move, e.solution@, e.score))
}

/// A problem the set can hold: pieces on the board, not too many.
pub open spec fn storable(d: InitialData) -> bool {
    on_board(d.pieces@) && d.pieces@.len() <= 0x10000
}

impl PuzzleSet {
    /// The entries in order.
    pub closed spec fn spec_entries(&self) -> Seq<Entry> {
        self.entries@
    }

    /// Every entry's keys are those of its problem, and no two entries hold
    /// the same problem or problems of the same structure.
    pub closed spec fn wf(&self) -> bool {
        &&& forall|i: int| 0 <= i < self.entries@.len() ==> entry_keys_ok(#[trigger] self.entries@[i])
        &&& no_repeats(self.entries@)
    }

    /// An empty set.
    pub fn new() -> (r: Self)
        ensures
            r.spec_entries().len() == 0,
            r.wf(),
    {
        PuzzleSet { entries: Vec::new() }
    }

    /// The number of problems in the set.
    pub fn len(&self) -> (r: usize)
        ensures
            r == self.spec_entries().len(),
    {
        self.entries.len()
    }

    /// Whether problem `d`, or one of the same structural signature, is in the set.
    fn contains_problem(&self, d: &InitialData, sig: &String) -> (r: bool)
        requires
            self.wf(),
            sig@ == signature_chars(*d),
        ensures
            r == seen(self.spec_entries(), *d),
    {
        let mut i: usize = 0;
        while i < self.entries.len()
            invariant
                i <= self.entries@.len(),
                self.wf(),
                sig@ == signature_chars(*d),
                forall|j: int| 0 <= j < i ==> !(same_problem(#[trigger] self.entries@[j].initial, *d)
                    || self.entries@[j].signature@ == signature_chars(*d)),
            decreases self.entries.len() - i,
        {
            let e = &self.entries[i];
            if crate::generate::pieces_equal(&e.initial.pieces, &d.pieces) && hands_equal(&e.initial.hands, &d.hands)
                && e.initial.side_to_move == d.side_to_move {
                return true;
            }
            if e.signature == *sig {
                return true;
            }
            i = i + 1;
        }
        false
    }

    /// How many problems of the set have composition key `key`.
    fn count_composition(&self, key: &String) -> (r: u32)
        requires
            self.spec_entries().len() <= 0xFFFF_FFFF,
        ensures
            r == count_where(self.spec_entries().len(), with_key(self.spec_entries(), key@)),
    {
        let ghost p = with_key(self.entries@, key@);
        let mut c: u32 = 0;
        let mut i: usize = 0;
        while i < self.entries.len()
            invariant
                i <= self.entries@.len(),
                self.entries@.len() <= 0xFFFF_FFFF,
                p == with_key(self.entries@, key@),
                c == count_where(i as nat, p),
            decreases self.entries.len() - i,
        {
            proof {
                lemma_count_where_le(i as nat, p);
            }
            if self.entries[i].composition == *key {
                c = c + 1;
            }
            i = i + 1;
        }
        c
    }

    /// How many problems of the set have attacker composition key `key`.
    fn count_attacker_composition(&self, key: &String) -> (r: u32)
        requires
            self.spec_entries().len() <= 0xFFFF_FFFF,
        ensures
            r == count_where(self.spec_entries().len(), with_attacker_key(self.spec_entries(), key@)),
    {
        let ghost p = with_attacker_key(self.entries@, key@);
        let mut c: u32 = 0;
        let mut i: usize = 0;
        while i < self.entries.len()
            invariant
                i <= self.entries@.len(),
                self.entries@.len() <= 0xFFFF_FFFF,
                p == with_attacker_key(self.entries@, key@),
                c == count_where(i as nat, p),
            decreases self.entries.len() - i,
        {
            proof {
                lemma_count_where_le(i as nat, p);
            }
            if self.entries[i].attacker_composition == *key {
                c = c + 1;
            }
            i = i + 1;
        }
        c
    }

    /// Keep a problem found in an earlier run unless the set already holds
    /// it or one of the same structure (no limit by make-up).
    pub fn keep(&mut self, initial: InitialData, solution: Vec<Move>, score: i32) -> (r: bool)
        requires
            old(self).wf(),
            storable(initial),
        ensures
            final(self).wf(),
            r == !seen(old(self).spec_entries(), initial),
            r ==> entries_view(final(self).spec_entries()) == entries_view(old(self).spec_entries()).push(
                (initial.pieces@, initial.hands, initial.side_to_move, solution@, score),
            ),
            !r ==> final(self).spec_entries() == old(self).spec_entries(),
    {
        let sig = crate::keys::structural_signature(&initial);
        if self.contains_problem(&initial, &sig) {
            return false;
        }
        let composition = crate::keys::composition_key(&initial);
        let attacker_composition = crate::keys::attacker_composition_key(&initial);
        let ghost before = self.entries@;
        let ghost d = initial;
        self.entries.push(Entry { initial, solution, score, signature: sig, composition, attacker_composition });
        proof {
            assert(entries_view(self.entries@) =~= entries_view(before).push(
                (d.pieces@, d.hands, d.side_to_move, solution@, score),
            ));
            let es = self.entries@;
            assert forall|i: int, j: int| 0 <= i < j < es.len() implies !same_problem(#[trigger] es[i].initial, #[trigger] es[j].initial)
                && es[i].signature@ != es[j].signature@ by {
                if j == before.len() {
                    assert(es[i] == before[i]);
                    assert(!(same_problem(before[i].initial, d) || before[i].signature@ == signature_chars(d)));
                } else {
                    assert(es[i] == before[i] && es[j] == before[j]);
                }
            }
        }
        true
    }

    /// Add a new problem unless the set already holds it or one of the same
    /// structure, or already holds three problems of its make-up or three
    /// with its attacker make-up.
    pub fn add_new(&mut self, initial: InitialData, solution: Vec<Move>, score: i32) -> (r: bool)
        requires
            old(self).wf(),
            storable(initial),
            old(self).spec_entries().len() <= 0xFFFF_FFFF,
        ensures
            final(self).wf(),
            r == (!seen(old(self).spec_entries(), initial) && count_where(
                old(self).spec_entries().len(),
                with_key(old(self).spec_entries(), composition_chars(initial)),
            ) < MAX_PER_COMPOSITION && count_where(
                old(self).spec_entries().len(),
                with_attacker_key(old(self).spec_entries(), attacker_composition_chars(initial)),
            ) < MAX_PER_ATTACKER_COMPOSITION),
            r ==> entries_view(final(self).spec_entries()) == entries_view(old(self).spec_entries()).push(
                (initial.pieces@, initial.hands, initial.side_to_move, solution@, score),
            ),
            !r ==> final(self).spec_entries() == old(self).spec_entries(),
    {
        let sig = crate::keys::structural_signature(&initial);
        if self.contains_problem(&initial, &sig) {
            return false;
        }
        let composition = crate::keys::composition_key(&initial);
        if self.count_composition(&composition) >= MAX_PER_COMPOSITION {
            return false;
        }
        let attacker_composition = crate::keys::attacker_composition_key(&initial);
        if self.count_attacker_composition(&attacker_composition) >= MAX_PER_ATTACKER_COMPOSITION {
            return false;
        }
        let ghost before = self.entries@;
        let ghost d = initial;
        self.entries.push(Entry { initial, solution, score, signature: sig, composition, attacker_composition });
        proof {
            assert(entries_view(self.entries@) =~= entries_view(before).push(
                (d.pieces@, d.hands, d.side_to_move, solution@, score),
            ));
            let es = self.entries@;
            assert forall|i: int, j: int| 0 <= i < j < es.len() implies !same_problem(#[trigger] es[i].initial, #[trigger] es[j].initial)
                && es[i].signature@ != es[j].signature@ by {
                if j == before.len() {
                    assert(es[i] == before[i]);
                    assert(!(same_problem(before[i].initial, d) || before[i].signature@ == signature_chars(d)));
                } else {
                    assert(es[i] == before[i] && es[j] == before[j]);
                }
            }
        }
        true
    }

    /// The problems of the set with their solutions and scores, in order,
    /// the set kept as it is.
    pub fn results(&self) -> (r: Vec<(InitialData, Vec<Move>, i32)>)
        ensures
            r@.len() == self.spec_entries().len(),
            forall|i: int| 0 <= i < r@.len() ==> #[trigger] result_of(r@[i], self.spec_entries()[i]),
    {
        let mut r: Vec<(InitialData, Vec<Move>, i32)> = Vec::new();
        let mut i: usize = 0;
        while i < self.entries.len()
            invariant
                i <= self.entries@.len(),
                r@.len() == i,
                forall|j: int| 0 <= j < i ==> #[trigger] result_of(r@[j], self.entries@[j]),
            decreases self.entries.len() - i,
        {
            let e = &self.entries[i];
            let c0 = crate::generate::copy_initial(&e.initial);
            let c1 = crate::search::copy_moves(&e.solution);
            let ghost before = r@;
            r.push((c0, c1, e.score));
            proof {
                assert(result_of(r@[i as int], self.entries@[i as int]));
                assert(forall|j: int| 0 <= j < i ==> r@[j] == before[j]);
            }
            i = i + 1;
        }
        r
    }

    /// The problems of the set with their solutions and scores, in order.
    pub fn into_results(self) -> (r: Vec<(InitialData, Vec<Move>, i32)>)
        ensures
            r@.len() == self.spec_entries().len(),
            forall|i: int| 0 <= i < r@.len() ==> #[trigger] result_of(r@[i], self.spec_entries()[i]),
    {
        let mut r: Vec<(InitialData, Vec<Move>, i32)> = Vec::new();
        let mut i: usize = 0;
        while i < self.entries.len()
            invariant
                i <= self.entries@.len(),
                r@.len() == i,
                forall|j: int| 0 <= j < i ==> #[trigger] result_of(r@[j], self.entries@[j]),
            decreases self.entries.len() - i,
        {
            let e = &self.entries[i];
            let c0 = crate::generate::copy_initial(&e.initial);
            let c1 = crate::search::copy_moves(&e.solution);
            let ghost before = r@;
            r.push((c0, c1, e.score));
            proof {
                assert(result_of(r@[i as int], self.entries@[i as int]));
                assert(forall|j: int| 0 <= j < i ==> r@[j] == before[j]);
            }
            i = i + 1;
        }
        r
    }
}

/// `t` holds the problem, solution and score of entry `e`.
pub open spec fn result_of(t: (InitialData, Vec<Move>, i32), e: Entry) -> bool {
    t.0.pieces@ == e.initial.pieces@ && t.0.hands == e.initial.hands && t.0.side_to_move == e.initial.side_to_move
        && t.1@ == e.solution@ && t.2 == e.score
}

/// Law: a set never holds the same problem twice, nor two problems of the
/// same structural signature.
pub proof fn lemma_set_no_repeats(set: &PuzzleSet)
    requires
        set.wf(),
    ensures
        no_repeats(set.spec_entries()),
{
}

/// Whether two pairs of hands are equal.
pub fn hands_equal(a: &HandsData, b: &HandsData) -> (r: bool)
    ensures
        r == (*a == *b),
{
    let x = &a.attacker;
    let y = &b.attacker;
    let u = &a.defender;
    let v = &b.defender;
    x.R == y.R && x.B == y.B && x.G == y.G && x.S == y.S && x.N == y.N && x.L == y.L && x.P == y.P && u.R == v.R
        && u.B == v.B && u.G == v.G && u.S == v.S && u.N == v.N && u.L == v.L && u.P == v.P
}

/// The attempts given to the backward method: all of them when it runs
/// alone, half when both methods run, none otherwise.
pub fn backward_attempts(method: GenerateMethod, attempts: u32) -> (r: u32)
    ensures
        method == GenerateMethod::Backward ==> r == attempts,
        method == GenerateMethod::Both ==> r == attempts / 2,
        method == GenerateMethod::Random ==> r == 0,
{
    match method {
        GenerateMethod::Backward => attempts,
        GenerateMethod::Both => attempts / 2,
        GenerateMethod::Random => 0,
    }
}

/// The attempts given to random candidates: all of them unless only the
/// backward method runs.
pub fn random_attempts(method: GenerateMethod, attempts: u32) -> (r: u32)
    ensures
        method == GenerateMethod::Backward ==> r == 0,
        method != GenerateMethod::Backward ==> r == attempts,
{
    match method {
        GenerateMethod::Random => attempts,
        GenerateMethod::Both => attempts,
        GenerateMethod::Backward => 0,
    }
}

/// How many two-ply extensions lead from problems of `source_mate` plies to
/// problems of `mate_length` plies.
pub fn extend_steps(mate_length: u32, source_mate: u32) -> (r: u32)
    requires
        source_mate <= mate_length,
    ensures
        r == (mate_length - source_mate) / 2,
{
    (mate_length - source_mate) / 2
}

/// The attempts `start..end` of batch `batch` of `size` attempts out of `total`.
pub fn batch_bounds(batch: u32, size: u32, total: u32) -> (r: (u32, u32))
    requires
        batch as int * size as int + size as int <= u32::MAX,
    ensures
        r.0 == batch * size,
        r.1 == if batch * size + size <= total { batch * size + size } else { total as int },
{
    let start = batch * size;
    let end = if start + size <= total { start + size } else { total };
    (start, end)
}

/// A random candidate turned into a problem (see `validate_and_prune`): the
/// candidate made with the parameters for `mate_length` from the generator
/// seeded with `(seed + i) * 2654435761` (wrapping).
pub fn attempt_random(seed: u64, i: u32, mate_length: u32) -> (r: Option<(InitialData, Vec<Move>, i32)>)
    requires
        mate_length <= 0x100_0000,
    ensures
        r matches Some(t) ==> t.1@.len() == mate_length && t.2 == spec_score(t.0, t.1@),
{
    let mut rng = Rng::new(seed.wrapping_add(i as u64).wrapping_mul(2654435761));
    let params = crate::generate::candidate_params(mate_length);
    proof {
        crate::generate::lemma_params_ok(mate_length as nat);
    }
    let cand = match crate::generate::random_candidate(&mut rng, &params) {
        Some(c) => c,
        None => return None,
    };
    crate::generate::validate_and_prune(&cand, mate_length)
}

/// A candidate unwound backwards from a mated position (see
/// `backward_candidate`, seeded with `(seed + i) * 6364136223846793005`,
/// wrapping) turned into a problem.
pub fn attempt_backward(seed: u64, i: u32, mate_length: u32) -> (r: Option<(InitialData, Vec<Move>, i32)>)
    requires
        mate_length <= 500,
    ensures
        r matches Some(t) ==> t.1@.len() == mate_length && t.2 == spec_score(t.0, t.1@),
        crate::backward::bc_spec(
            (if mate_length >= 1 { (mate_length - 1) / 2 } else { 0 }) as nat,
            50,
            crate::rng::seed_state(seed.wrapping_add(i as u64).wrapping_mul(6364136223846793005)),
        ) is None ==> r is None,
{
    let rng_seed = seed.wrapping_add(i as u64).wrapping_mul(6364136223846793005);
    let cand = match crate::backward::backward_candidate(rng_seed, mate_length) {
        Some(c) => c,
        None => return None,
    };
    if cand.pieces.len() > 0xFFFF_FFFF {
        return None;
    }
    crate::generate::validate_and_prune(&cand, mate_length)
}

/// A problem that `extend_candidate` can extend: pieces on the board, at
/// most one king a side, at most 254 of a kind in the attacker's hand.
pub open spec fn extendable(d: InitialData) -> bool {
    &&& on_board(d.pieces@)
    &&& d.pieces@.len() <= 0xFFFF_FFFF
    &&& kings_unique(d.pieces@)
    &&& forall|k: int| 0 <= k < 7 ==> #[trigger] hc_seq(d.hands.attacker)[k] <= 254
}

fn is_extendable(d: &InitialData) -> (r: bool)
    ensures
        r == extendable(*d),
{
    if d.pieces.len() > 0xFFFF_FFFF {
        return false;
    }
    if !crate::generate::all_on_board(&d.pieces) || !crate::generate::kings_are_unique(&d.pieces) {
        return false;
    }
    let h = d.hands.attacker.to_array();
    let mut k: usize = 0;
    while k < 7
        invariant
            k <= 7,
            h@ == hc_seq(d.hands.attacker),
            forall|j: int| 0 <= j < k ==> #[trigger] hc_seq(d.hands.attacker)[j] <= 254,
        decreases 7 - k,
    {
        if h[k] > 254 {
            return false;
        }
        k = k + 1;
    }
    true
}

/// A problem extended `steps` times by two plies (step `s` seeded with
/// `(seed + i) * 2654435761 + s * 999979`, wrapping), then put through the
/// cheap filter and turned into a problem. Nothing when some step finds no
/// extension, or a source or an intermediate candidate cannot be extended.
pub fn attempt_extend(seed: u64, i: u32, steps: u32, source: &InitialData, mate_length: u32) -> (r: Option<(InitialData, Vec<Move>, i32)>)
    requires
        mate_length <= 0x100_0000,
    ensures
        r matches Some(t) ==> t.1@.len() == mate_length && t.2 == spec_score(t.0, t.1@),
{
    let mut current = crate::generate::copy_initial(source);
    let mut step: u32 = 0;
    while step < steps
        decreases steps - step,
    {
        if !is_extendable(&current) {
            return None;
        }
        let rng_seed = seed.wrapping_add(i as u64).wrapping_mul(2654435761).wrapping_add(step as u64 * 999979);
        current = match crate::backward::extend_candidate(rng_seed, &current) {
            Some(c) => c,
            None => return None,
        };
        step = step + 1;
    }
    if current.pieces.len() > 0xFFFF_FFFF || !crate::generate::all_on_board(&current.pieces) {
        return None;
    }
    if crate::generate::quick_reject(&current, mate_length) {
        return None;
    }
    crate::generate::validate_and_prune(&current, mate_length)
}

/// A variation of a problem found so far turned into a problem: the
/// generator seeded with `(seed + 77777 + i) * 6364136223846793005`
/// (wrapping) picks one of `snapshot`; every fifth attempt tries its mirror
/// image (when that is a valid candidate), the others a random variation.
#[verifier::rlimit(50)]
#[verifier::spinoff_prover]
pub fn attempt_mutate(seed: u64, i: u32, snapshot: &Vec<InitialData>, mate_length: u32) -> (r: Option<(InitialData, Vec<Move>, i32)>)
    requires
        snapshot@.len() > 0,
        mate_length <= 0x100_0000,
    ensures
        r matches Some(t) ==> t.1@.len() == mate_length && t.2 == spec_score(t.0, t.1@),
{
    let mut rng = Rng::new(seed.wrapping_add(77777).wrapping_add(i as u64).wrapping_mul(6364136223846793005));
    let seed_idx = (rng.next_u64() as usize) % snapshot.len();
    let seed_initial = &snapshot[seed_idx];
    if seed_initial.pieces.len() > 0xFFFF_FF00 || !crate::generate::all_on_board(&seed_initial.pieces) {
        return None;
    }
    if i % 5 == 0 {
        proof {
            assert forall|j: int| 0 <= j < seed_initial.pieces@.len() implies #[trigger] seed_initial.pieces@[j].x >= -117 by {
                assert(crate::initial::piece_pos(seed_initial.pieces@[j]).spec_valid());
            }
        }
        let mirrored = seed_initial.mirror();
        if crate::generate::basic_validity(&mirrored) {
            return crate::generate::validate_and_prune(&mirrored, mate_length);
        }
        return None;
    }
    proof {
        assert forall|j: int| 0 <= j < seed_initial.pieces@.len() implies #[trigger] crate::generate::coord_shiftable(seed_initial.pieces@[j]) by {
            assert(crate::initial::piece_pos(seed_initial.pieces@[j]).spec_valid());
        }
    }
    let cand = match crate::generate::mutate_initial(&mut rng, seed_initial) {
        Some(c) => c,
        None => return None,
    };
    crate::generate::validate_and_prune(&cand, mate_length)
}

/// A problem of an earlier run checked again: it must still validate with
/// no pieces left over; its sliders are then brought closer to the king.
/// Nothing when it cannot be searched, does not validate or leaves pieces over.
#[verifier::rlimit(80)]
#[verifier::spinoff_prover]
pub fn check_existing(initial: &InitialData, mate_length: u32) -> (r: Option<(InitialData, Vec<Move>)>)
    ensures
        r matches Some(t) ==> exists|s: State, line: Seq<Move>|
            #![trigger is_state_of(initial.pieces@, initial.hands.attacker, initial.side_to_move, s), leftover_after(s, line)]
            is_state_of(initial.pieces@, initial.hands.attacker, initial.side_to_move, s) && auto_result_ok(
                s,
                mate_length as nat,
                Some(line),
            ) && !leftover_after(s, line) && slider_result_ok(*initial, line, mate_length as nat, t.0, t.1@),
        !crate::generate::searchable_spec(*initial) ==> r is None,
        mate_length < 7 && initial.pieces@.len() <= 0xFFFF_FFFF ==> forall|t: State| #[trigger] is_state_of(initial.pieces@, initial.hands.attacker, initial.side_to_move, t)
            && crate::generate::searchable_spec(*initial) ==> (r is Some <==> match crate::validate::spec_validate_tsume(
            t,
            mate_length as nat,
        ) {
            Some(l) => !leftover_after(t, l),
            None => false,
        }),
{
    if initial.pieces.len() > 0xFFFF_FFFF {
        return None;
    }
    let mut state = match crate::generate::searchable_state(initial) {
        Some(st) => st,
        None => return None,
    };
    let ghost s0 = state;
    proof {
        assert forall|t: State| #[trigger] is_state_of(initial.pieces@, initial.hands.attacker, initial.side_to_move, t) implies t == s0 by {
            crate::generate::lemma_state_of_unique(initial.pieces@, initial.hands.attacker, initial.side_to_move, t, s0);
        }
    }
    let sol = match crate::generate::validate_tsume_for_verify(&mut state, mate_length) {
        Some(l) => l,
        None => return None,
    };
    if crate::generate::has_leftover_pieces(initial, &sol) {
        return None;
    }
    let ghost line = sol@;
    let (d, l) = crate::generate::normalize_slider_distance(crate::generate::copy_initial(initial), sol, mate_length);
    proof {
        assert(is_state_of(initial.pieces@, initial.hands.attacker, initial.side_to_move, s0));
        assert(!leftover_after(s0, line));
    }
    Some((d, l))
}

} // verus!

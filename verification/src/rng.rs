use vstd::prelude::*;
use crate::zobrist::{xorshift64, xorshift64_exec};

verus! {

/// A small xorshift64 random number generator.
pub struct Rng {
    x: u64,
}

impl View for Rng {
    type V = u64;

    closed spec fn view(&self) -> u64 {
        self.x
    }
}

/// The generator state after a seed (seed 0 is replaced by 123456789).
pub open spec fn seed_state(seed: u64) -> u64 {
    if seed == 0 {
        123456789
    } else {
        seed
    }
}

/// Fisher-Yates on `s` for positions `i` down to 1, drawing from state `x`:
/// the shuffled sequence and the final state.
pub open spec fn shuffle_steps<T>(s: Seq<T>, x: u64, i: nat) -> (Seq<T>, u64)
    decreases i,
{
    if i == 0 || i >= s.len() {
        (s, x)
    } else {
        let x2 = xorshift64(x);
        let j = ((x2 as usize) % ((i + 1) as usize)) as int;
        shuffle_steps(s.update(i as int, s[j]).update(j, s[i as int]), x2, (i - 1) as nat)
    }
}

pub open spec fn shuffle_spec<T>(s: Seq<T>, x: u64) -> (Seq<T>, u64) {
    if s.len() == 0 {
        (s, x)
    } else {
        shuffle_steps(s, x, (s.len() - 1) as nat)
    }
}

impl Rng {
    pub fn new(seed: u64) -> (r: Self)
        ensures
            r@ == seed_state(seed),
    {
        Rng { x: if seed == 0 { 123456789 } else { seed } }
    }

    /// The next number: one xorshift64 step of the state.
    pub fn next_u64(&mut self) -> (r: u64)
        ensures
            r == xorshift64(old(self)@),
            final(self)@ == r,
    {
        self.x = xorshift64_exec(self.x);
        self.x
    }

    /// A number in `min..=max`: the next number modulo the range size, plus `min`.
    pub fn ri(&mut self, min: i8, max: i8) -> (r: i8)
        requires
            min <= max,
            max - min + 1 <= 127,
        ensures
            final(self)@ == xorshift64(old(self)@),
            r as int == (xorshift64(old(self)@) % ((max - min + 1) as u64)) + min,
            min <= r <= max,
    {
        let range = (max - min + 1) as u64;
        let v = self.next_u64();
        (v % range) as i8 + min
    }

    /// An element of `arr`: the one at the next number modulo the length.
    pub fn pick<'a, T>(&mut self, arr: &'a [T]) -> (r: &'a T)
        requires
            arr@.len() > 0,
        ensures
            final(self)@ == xorshift64(old(self)@),
            *r == arr@[((xorshift64(old(self)@) as usize) as nat % arr@.len()) as int],
    {
        let idx = self.next_u64() as usize % arr.len();
        &arr[idx]
    }

    /// Shuffle `arr` in place (Fisher-Yates from the last position down).
    pub fn shuffle<T: Copy>(&mut self, arr: &mut Vec<T>)
        ensures
            (final(arr)@, final(self)@) == shuffle_spec(old(arr)@, old(self)@),
    {
        let ghost s0 = arr@;
        let ghost x0 = self@;
        if arr.len() == 0 {
            return;
        }
        let mut i: usize = arr.len() - 1;
        while i >= 1
            invariant
                i < arr.len(),
                arr@.len() == s0.len(),
                s0.len() > 0,
                shuffle_spec(s0, x0) == shuffle_steps(arr@, self@, i as nat),
            decreases i,
        {
            let j = self.next_u64() as usize % (i + 1);
            let a = arr[i];
            let b = arr[j];
            arr.set(i, b);
            arr.set(j, a);
            i = i - 1;
        }
    }
}

/// Shuffling only moves elements around.
pub proof fn lemma_shuffle_steps_elements<T>(s: Seq<T>, x: u64, i: nat)
    requires
        s.len() <= usize::MAX,
    ensures
        shuffle_steps(s, x, i).0.len() == s.len(),
        forall|j: int| 0 <= j < s.len() ==> s.contains(#[trigger] shuffle_steps(s, x, i).0[j]),
    decreases i,
{
    if i != 0 && i < s.len() {
        let x2 = xorshift64(x);
        let k = ((x2 as usize) % ((i + 1) as usize)) as int;
        assert(0 <= k <= i);
        let s2 = s.update(i as int, s[k]).update(k, s[i as int]);
        lemma_shuffle_steps_elements(s2, x2, (i - 1) as nat);
        assert(shuffle_steps(s, x, i) == shuffle_steps(s2, x2, (i - 1) as nat));
        assert forall|j: int| 0 <= j < s.len() implies s.contains(#[trigger] shuffle_steps(s, x, i).0[j]) by {
            let e = shuffle_steps(s, x, i).0[j];
            assert(e == shuffle_steps(s2, x2, (i - 1) as nat).0[j]);
            assert(s2.contains(e));
            let q = choose|q: int| 0 <= q < s2.len() && s2[q] == e;
            if q == k {
                assert(s[i as int] == e);
            } else if q == i {
                assert(s[k] == e);
            } else {
                assert(s[q] == e);
            }
        }
    }
}

/// Law: shuffling keeps the length and only rearranges elements.
pub proof fn lemma_shuffle_elements<T>(s: Seq<T>, x: u64)
    requires
        s.len() <= usize::MAX,
    ensures
        shuffle_spec(s, x).0.len() == s.len(),
        forall|j: int| 0 <= j < s.len() ==> s.contains(#[trigger] shuffle_spec(s, x).0[j]),
{
    if s.len() > 0 {
        lemma_shuffle_steps_elements(s, x, (s.len() - 1) as nat);
    }
}

/// Swapping two elements keeps the multiset of elements.
proof fn lemma_swap_multiset<T>(s: Seq<T>, i: int, k: int)
    requires
        0 <= i < s.len(),
        0 <= k < s.len(),
    ensures
        s.update(i, s[k]).update(k, s[i]).to_multiset() == s.to_multiset(),
{
    let s1 = s.update(i, s[k]);
    vstd::seq_lib::to_multiset_update(s, i, s[k]);
    vstd::seq_lib::to_multiset_update(s1, k, s[i]);
    if i == k {
        assert(s1 =~= s);
        assert(s.update(i, s[k]).update(k, s[i]) =~= s);
    } else {
        assert(s1[k] == s[k]);
        assert(s.to_multiset().insert(s[k]).remove(s[i]).insert(s[i]).remove(s[k]) =~= s.to_multiset()) by {
            broadcast use vstd::multiset::group_multiset_axioms;
            assert(s.to_multiset().contains(s[i])) by {
                broadcast use vstd::seq_lib::group_to_multiset_ensures;
                assert(s.contains(s[i]));
            }
        }
    }
}

proof fn lemma_shuffle_steps_multiset<T>(s: Seq<T>, x: u64, i: nat)
    requires
        s.len() <= usize::MAX,
    ensures
        shuffle_steps(s, x, i).0.to_multiset() == s.to_multiset(),
    decreases i,
{
    if i != 0 && i < s.len() {
        let x2 = xorshift64(x);
        let k = ((x2 as usize) % ((i + 1) as usize)) as int;
        let s2 = s.update(i as int, s[k]).update(k, s[i as int]);
        lemma_swap_multiset(s, i as int, k);
        lemma_shuffle_steps_multiset(s2, x2, (i - 1) as nat);
    }
}

/// Law: shuffling is a permutation (the multiset of elements is kept).
pub proof fn lemma_shuffle_permutes<T>(s: Seq<T>, x: u64)
    requires
        s.len() <= usize::MAX,
    ensures
        shuffle_spec(s, x).0.to_multiset() == s.to_multiset(),
{
    if s.len() > 0 {
        lemma_shuffle_steps_multiset(s, x, (s.len() - 1) as nat);
    }
}

} // verus!

//! The seeded random source of one candidate construction. Every
//! construction owns an independent generator derived from its iteration
//! index, so runs are reproducible and parallel constructions share no
//! mutable random state. The ghost trace records the operations drawn so
//! far; each drawn value is a repeatable (though unspecified) function of
//! the seed and that trace.

use vstd::prelude::*;
use rand::Rng;
use rand::SeedableRng;
use rand::seq::SliceRandom;

verus! {

#[verifier::external_type_specification]
#[verifier::external_body]
pub struct ExStdRng(rand::rngs::StdRng);

/// The value drawn by a bounded pick after the operations in `trace` on the
/// stream seeded with `seed`: an unspecified but repeatable function of the
/// seed, the trace and the bound.
pub uninterp spec fn rand_pick(seed: u64, trace: Seq<int>, bound: int) -> int;

/// The arrangement a shuffle leaves after the operations in `trace` on the
/// stream seeded with `seed`, applied to `items`: an unspecified but
/// repeatable function of the seed, the trace and the items.
pub uninterp spec fn rand_perm(seed: u64, trace: Seq<int>, items: Seq<usize>) -> Seq<usize>;

/// A seeded pseudo-random stream together with a ghost trace of the
/// operations drawn from it. A pick with bound `b` is recorded as `2 * b`,
/// a shuffle of `k` items as `2 * k + 1`, so the trace pins the stream
/// position and the kind of every operation.
pub struct SearchRng {
    inner: rand::rngs::StdRng,
    seed: Ghost<u64>,
    trace: Ghost<Seq<int>>,
}

/// Relies on `StdRng::seed_from_u64`: the generator is a pure function of
/// the seed (a seeded ChaCha stream independent of machine and process), so
/// every operation drawn from it is repeatable given the seed and the
/// operations drawn before it.
#[verifier::external_body]
fn seed_stream(seed: u64) -> rand::rngs::StdRng {
    rand::rngs::StdRng::seed_from_u64(seed)
}

impl SearchRng {
    /// The seed this stream was created from.
    pub closed spec fn seed_of(self) -> u64 {
        self.seed@
    }

    /// The operations drawn from this stream so far.
    pub closed spec fn trace_of(self) -> Seq<int> {
        self.trace@
    }

    /// A fresh stream for the given seed, with an empty trace.
    pub fn new(seed: u64) -> (r: SearchRng)
        ensures
            r.seed_of() == seed,
            r.trace_of() == Seq::<int>::empty(),
    {
        SearchRng { inner: seed_stream(seed), seed: Ghost(seed), trace: Ghost(Seq::empty()) }
    }

    /// Relies on `Rng::gen_range` over `0..bound as u64`: returns a value
    /// below the bound, deterministically from the generator state. The
    /// range is non-empty because `bound >= 1`.
    #[verifier::external_body]
    pub fn pick(&mut self, bound: usize) -> (r: usize)
        requires
            bound >= 1,
        ensures
            r < bound,
            r as int == rand_pick(old(self).seed_of(), old(self).trace_of(), bound as int),
            final(self).seed_of() == old(self).seed_of(),
            final(self).trace_of() == old(self).trace_of().push(2 * (bound as int)),
    {
        self.inner.gen_range(0..bound as u64) as usize
    }

    /// Relies on `SliceRandom::shuffle`: rearranges the slice in place by a
    /// Fisher-Yates walk, so the result holds exactly the old items, chosen
    /// deterministically from the generator state and the slice length.
    #[verifier::external_body]
    pub fn shuffle(&mut self, items: &mut Vec<usize>)
        ensures
            final(items)@ == rand_perm(old(self).seed_of(), old(self).trace_of(), old(items)@),
            final(items)@.to_multiset() == old(items)@.to_multiset(),
            final(self).seed_of() == old(self).seed_of(),
            final(self).trace_of() == old(self).trace_of().push(2 * (old(items)@.len() as int) + 1),
    {
        items.shuffle(&mut self.inner);
    }
}

} // verus!

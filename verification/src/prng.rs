//! The pseudo-random source behind generation: a seeded generator from the
//! rand crate, modelled so that every draw is a function of the seed and of
//! the draws made before it.
use vstd::prelude::*;

verus! {

/// Declares rand's standard generator so that a field may hold one; the
/// value stays opaque here.
#[verifier::external_type_specification]
#[verifier::external_body]
pub struct ExStdRng(rand::rngs::StdRng);

/// What one uniform draw below `bound` returns, as a function of the seed
/// and of the bounds of all draws made before it.
pub uninterp spec fn pick_of(seed: u64, drawn: Seq<u32>, bound: u32) -> u32;

/// Relies on rand_core::SeedableRng::seed_from_u64: builds the generator
/// whose draws [`Prng::pick`] describes. No contract is claimed here; the
/// seeded generator's behaviour is captured by the contract of `pick`.
#[verifier::external_body]
fn seeded_rng(seed: u64) -> rand::rngs::StdRng {
    rand::SeedableRng::seed_from_u64(seed)
}

/// A pseudo-random source seeded from one value. The ghost history records
/// the bound of every draw made so far, so that a draw's result can be
/// stated as a function of the seed and that history.
pub struct Prng {
    rng: rand::rngs::StdRng,
    seed: u64,
    drawn: Ghost<Seq<u32>>,
}

impl Prng {
    /// The seed this source was built from.
    pub closed spec fn seed_spec(&self) -> u64 {
        self.seed
    }

    /// The bounds of the draws made so far, oldest first.
    pub closed spec fn drawn_spec(&self) -> Seq<u32> {
        self.drawn@
    }

    /// A source that will draw the stream belonging to `seed`.
    pub fn from_seed(seed: u64) -> (p: Prng)
        ensures
            p.seed_spec() == seed,
            p.drawn_spec() == Seq::<u32>::empty(),
    {
        Prng { rng: seeded_rng(seed), seed, drawn: Ghost(Seq::empty()) }
    }

    /// Relies on rand::random: an arbitrary entropy-derived seed value.
    /// The thread generator's one-time initialization aborts the process
    /// if the operating system's entropy source fails; that environmental
    /// failure is of a kind with resource exhaustion, not input-dependent.
    #[verifier::external_body]
    pub(crate) fn entropy_seed() -> u64 {
        rand::random::<u64>()
    }

    /// Relies on rand::Rng::gen_range on a generator seeded with
    /// seed_from_u64: the draw is uniform below `bound`, and its value is
    /// determined by the seed together with the bounds of the earlier
    /// draws, on every machine alike.
    #[verifier::external_body]
    pub(crate) fn pick(&mut self, bound: u32) -> (i: u32)
        requires
            0 < bound,
        ensures
            i < bound,
            i == pick_of(old(self).seed_spec(), old(self).drawn_spec(), bound),
            final(self).seed_spec() == old(self).seed_spec(),
            final(self).drawn_spec() == old(self).drawn_spec().push(bound),
    {
        rand::Rng::gen_range(&mut self.rng, 0..bound)
    }
}

} // verus!

//! The random source of training batches: `rand`'s `StdRng`, with a record of
//! every draw made through it.
use vstd::prelude::*;
use rand::Rng;
use rand::rngs::StdRng;

verus! {

/// The random number generator of the `rand` crate that batches are drawn with.
#[verifier::external_type_specification]
#[verifier::external_body]
pub struct ExStdRng(StdRng);

/// A uniformly drawn start in `0..=last_start`, from `rand::Rng::random_range`.
#[verifier::external_body]
fn random_start(rng: &mut StdRng, last_start: usize) -> (start: usize)
    ensures
        start <= last_start,
{
    rng.random_range(0..=last_start)
}

/// A generator of window starts, and the draws made from it so far, each as
/// the start drawn and the largest start that could have been drawn.
pub struct WindowSampler {
    rng: StdRng,
    draws: Ghost<Seq<(usize, usize)>>,
}

impl WindowSampler {
    /// The draws made so far, oldest first: each start and the largest start allowed.
    pub closed spec fn draws(&self) -> Seq<(usize, usize)> {
        self.draws@
    }

    /// A sampler drawing from `rng`, with no draws made yet.
    pub fn new(rng: StdRng) -> (res: Self)
        ensures
            res.draws() == Seq::<(usize, usize)>::empty(),
    {
        WindowSampler { rng, draws: Ghost(Seq::empty()) }
    }

    /// Draws one start uniformly from `0..=last_start`, and records the draw.
    pub fn draw(&mut self, last_start: usize) -> (start: usize)
        ensures
            start <= last_start,
            final(self).draws() == old(self).draws().push((start, last_start)),
    {
        let start = random_start(&mut self.rng, last_start);
        proof {
            self.draws@ = self.draws@.push((start, last_start));
        }
        start
    }
}

} // verus!

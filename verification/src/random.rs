use vstd::prelude::*;

use rand::rngs::ThreadRng;
use rand::RngExt;

verus! {

/// `rand`'s thread-local generator, carried through as an opaque handle.
#[verifier::external_type_specification]
#[verifier::external_body]
pub struct ExThreadRng(ThreadRng);

/// Calls `rand::rng()` for a handle on the thread-local generator. Nothing
/// is stated of it: it is carried through opaque.
#[verifier::external_body]
fn thread_rng() -> ThreadRng {
    rand::rng()
}

/// The random source for spawn-zone draws: `rand`'s thread-local generator,
/// with the record of every draw made through it (the value drawn and the
/// bound it was drawn under), so that contracts can speak of the draws. The
/// fields are private to this module, and the record grows only in `draw`,
/// the one place that calls the generator: code elsewhere cannot write it.
pub struct SpawnRng {
    rng: ThreadRng,
    drawn: Ghost<Seq<usize>>,
    bounds: Ghost<Seq<usize>>,
}

impl SpawnRng {
    /// The values drawn so far, oldest first.
    pub closed spec fn drawn(&self) -> Seq<usize> {
        self.drawn@
    }

    /// The bound each of those values was drawn under.
    pub closed spec fn bounds(&self) -> Seq<usize> {
        self.bounds@
    }

    /// A source on the thread-local generator, with no draws made yet.
    pub fn new() -> (r: SpawnRng)
        ensures
            r.drawn() == Seq::<usize>::empty(),
            r.bounds() == Seq::<usize>::empty(),
    {
        SpawnRng { rng: thread_rng(), drawn: Ghost(Seq::empty()), bounds: Ghost(Seq::empty()) }
    }

    /// Calls `RngExt::random_range` with the range `0..n`. Its source samples
    /// from `low..=high - 1` and panics only on an empty range, which `n > 0`
    /// rules out. Which index comes back is chance: beyond its range, the
    /// contract states only that the draw, and the bound it was made under,
    /// are added to the record.
    #[verifier::external_body]
    pub(crate) fn draw(&mut self, n: usize) -> (r: usize)
        requires
            n > 0,
        ensures
            r < n,
            final(self).drawn() == old(self).drawn().push(r),
            final(self).bounds() == old(self).bounds().push(n),
    {
        self.rng.random_range(0..n)
    }
}

} // verus!

use vstd::prelude::*;
use rand::Rng;

verus! {

/// A source of indices, each drawn below a given bound, that remembers what it
/// has drawn.
pub trait IndexSource {
    /// Every index drawn so far, in order.
    spec fn draws(&self) -> Seq<u32>;

    /// An index in `[0, bound)`, which is added to the draws.
    fn index_below(&mut self, bound: u32) -> (r: u32)
        requires
            bound > 0,
        ensures
            r < bound,
            final(self).draws() == old(self).draws().push(r),
    ;
}

#[verifier::external_type_specification]
#[verifier::external_body]
pub struct ExThreadRng(rand::rngs::ThreadRng);

/// Relies on `rand::thread_rng`: a handle to the thread's random generator.
#[verifier::external_body]
fn thread_rng() -> rand::rngs::ThreadRng {
    rand::thread_rng()
}

/// Relies on rand's `Rng::gen_range(low, high)`: a value in `[low, high)`; it
/// panics only when `low >= high`, which `bound > 0` rules out.
#[verifier::external_body]
fn thread_rng_below(rng: &mut rand::rngs::ThreadRng, bound: u32) -> (r: u32)
    requires
        bound > 0,
    ensures
        r < bound,
{
    rng.gen_range(0, bound)
}

/// Uniform draws from the thread's random generator.
pub struct ThreadSource {
    rng: rand::rngs::ThreadRng,
    history: Ghost<Seq<u32>>,
}

impl ThreadSource {
    /// A source that has drawn nothing yet.
    pub fn new() -> (r: ThreadSource)
        ensures
            r.draws() == Seq::<u32>::empty(),
    {
        ThreadSource { rng: thread_rng(), history: Ghost(Seq::empty()) }
    }
}

impl IndexSource for ThreadSource {
    closed spec fn draws(&self) -> Seq<u32> {
        self.history@
    }

    fn index_below(&mut self, bound: u32) -> (r: u32) {
        let r = thread_rng_below(&mut self.rng, bound);
        self.history = Ghost(self.history@.push(r));
        r
    }
}

/// A source that always draws the lowest index, for replies that can be
/// foreseen: each step then takes the first successor seen.
pub struct LowestSource {
    history: Ghost<Seq<u32>>,
}

impl LowestSource {
    /// A source that has drawn nothing yet.
    pub fn new() -> (r: LowestSource)
        ensures
            r.draws() == Seq::<u32>::empty(),
    {
        LowestSource { history: Ghost(Seq::empty()) }
    }
}

impl IndexSource for LowestSource {
    closed spec fn draws(&self) -> Seq<u32> {
        self.history@
    }

    fn index_below(&mut self, bound: u32) -> (r: u32)
        ensures
            r == 0,
    {
        self.history = Ghost(self.history@.push(0));
        0
    }
}

} // verus!

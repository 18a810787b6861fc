//! Sources of random integers and booleans, drawn with the `rand` crate.

use rand::distributions::{Distribution, Uniform};
use rand::rngs::ThreadRng;
use vstd::prelude::*;

verus! {

/// The generator of the `rand` crate that each thread has for itself. Of
/// what it holds nothing is known here.
#[verifier::external_type_specification]
#[verifier::external_body]
pub struct ExThreadRng(ThreadRng);

/// `rand::thread_rng` hands out the calling thread's generator. Nothing
/// is claimed of it.
pub assume_specification[ rand::thread_rng ]() -> (rng: ThreadRng)
;

/// One value drawn by `Uniform::from(low..high).sample(rng)`. The `rand`
/// crate documents that such a distribution samples from the half-open
/// range from `low` to `high`, and that building it panics unless
/// `low < high`; which value of the range comes is left open.
#[verifier::external_body]
fn sample_range(rng: &mut ThreadRng, low: usize, high: usize) -> (value: usize)
    requires
        low < high,
    ensures
        low <= value < high,
{
    Uniform::from(low..high).sample(rng)
}

/// A source of integers spread evenly over a half-open range.
pub struct UniformRng {
    low: usize,
    high: usize,
    rng: ThreadRng,
}

impl UniformRng {
    /// The least value that can be drawn.
    pub closed spec fn low(&self) -> usize {
        self.low
    }

    /// The bound that every drawn value stays below.
    pub closed spec fn high(&self) -> usize {
        self.high
    }

    /// The range is not empty.
    pub closed spec fn wf(&self) -> bool {
        self.low < self.high
    }

    /// A source for the range from `start` up to, but not including, `end`.
    pub fn new(start: usize, end: usize) -> (source: UniformRng)
        requires
            start < end,
        ensures
            source.wf(),
            source.low() == start,
            source.high() == end,
    {
        UniformRng { low: start, high: end, rng: rand::thread_rng() }
    }

    /// Draws one value of the range.
    pub fn sample(&mut self) -> (value: usize)
        requires
            old(self).wf(),
        ensures
            final(self).wf(),
            final(self).low() == old(self).low(),
            final(self).high() == old(self).high(),
            old(self).low() <= value < old(self).high(),
    {
        sample_range(&mut self.rng, self.low, self.high)
    }
}

/// A source of booleans that are true with a set probability: a draw from
/// all of `usize` but its greatest value is compared with a threshold.
pub struct BoolRng {
    threshold: usize,
    rng: ThreadRng,
}

impl BoolRng {
    /// The number of draws, out of `usize::MAX`, that give `true`.
    pub closed spec fn threshold(&self) -> usize {
        self.threshold
    }

    /// A source that gives `true` for the draws below `threshold`: with
    /// probability `threshold / usize::MAX`.
    pub fn new(threshold: usize) -> (source: BoolRng)
        ensures
            source.threshold() == threshold,
    {
        BoolRng { threshold, rng: rand::thread_rng() }
    }

    /// What the source answers when `draw` is the value drawn.
    pub fn decide(&self, draw: usize) -> (answer: bool)
        ensures
            answer == (draw < self.threshold()),
    {
        draw < self.threshold
    }

    /// Draws one boolean. With threshold 0 it is never true, with
    /// threshold `usize::MAX` always.
    pub fn sample(&mut self) -> (answer: bool)
        ensures
            final(self).threshold() == old(self).threshold(),
            old(self).threshold() == 0 ==> !answer,
            old(self).threshold() == usize::MAX ==> answer,
    {
        let draw = sample_range(&mut self.rng, 0, usize::MAX);
        self.decide(draw)
    }
}

/// Goes through the vertices `0 .. size` and marks each for which
/// `chooser` answers true, with a length drawn from `lengths`.
pub fn select_marked(size: usize, chooser: &mut BoolRng, lengths: &mut UniformRng) -> (marked: Vec<
    (usize, usize),
>)
    requires
        old(lengths).wf(),
    ensures
        final(lengths).wf(),
        final(lengths).low() == old(lengths).low(),
        final(lengths).high() == old(lengths).high(),
        final(chooser).threshold() == old(chooser).threshold(),
        marked@.len() <= size,
        forall|i: int|
            0 <= i < marked@.len() ==> (#[trigger] marked@[i]).0 < size && old(lengths).low()
                <= marked@[i].1 < old(lengths).high(),
        forall|i: int, j: int|
            0 <= i < j < marked@.len() ==> (#[trigger] marked@[i]).0 < (#[trigger] marked@[j]).0,
        old(chooser).threshold() == 0 ==> marked@.len() == 0,
        old(chooser).threshold() == usize::MAX ==> marked@.len() == size && forall|i: int|
            0 <= i < size ==> (#[trigger] marked@[i]).0 == i,
{
    let mut marked: Vec<(usize, usize)> = Vec::new();
    let mut vertex: usize = 0;
    while vertex < size
        invariant
            vertex <= size,
            lengths.wf(),
            lengths.low() == old(lengths).low(),
            lengths.high() == old(lengths).high(),
            chooser.threshold() == old(chooser).threshold(),
            marked@.len() <= vertex,
            forall|i: int|
                0 <= i < marked@.len() ==> (#[trigger] marked@[i]).0 < vertex && lengths.low()
                    <= marked@[i].1 < lengths.high(),
            forall|i: int, j: int|
                0 <= i < j < marked@.len() ==> (#[trigger] marked@[i]).0 < (
                #[trigger] marked@[j]).0,
            chooser.threshold() == 0 ==> marked@.len() == 0,
            chooser.threshold() == usize::MAX ==> marked@.len() == vertex && forall|i: int|
                0 <= i < vertex ==> (#[trigger] marked@[i]).0 == i,
        decreases size - vertex,
    {
        if chooser.sample() {
            let length = lengths.sample();
            marked.push((vertex, length));
        }
        vertex += 1;
    }
    marked
}

} // verus!

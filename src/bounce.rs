//! The decisions of the per-pixel loop: how many reflections a primary ray is
//! followed through.
//!
//! A pixel starts with a reflection weight of one and a depth of zero. Each
//! step traces the current ray once: on a hit it adds shading and moves on to
//! the reflected ray, on a miss the pixel is done. Tracing goes on while the
//! depth is below the view's maximum and the reflection weight is positive.
use vstd::prelude::*;

verus! {

/// Where one pixel's chain of reflections stands.
#[derive(Clone, Copy, Debug, PartialEq, Eq)]
pub struct Bounces {
    /// Reflections traced so far.
    pub depth: u32,
    /// The view's maximum reflection depth.
    pub max_depth: u32,
    /// The last traced ray hit nothing.
    pub missed: bool,
}

impl Bounces {
    /// The depth never passes the maximum.
    pub open spec fn wf(&self) -> bool {
        self.depth <= self.max_depth
    }

    /// Whether one more ray is traced, given whether the reflection weight is
    /// still positive.
    pub open spec fn continues(&self, weight_positive: bool) -> bool {
        !self.missed && self.depth < self.max_depth && weight_positive
    }

    /// The state after one traced ray that hit something or not.
    pub open spec fn after(self, hit: bool) -> Bounces {
        if hit {
            Bounces { depth: (self.depth + 1) as u32, ..self }
        } else {
            Bounces { missed: true, ..self }
        }
    }

    /// The state in which every pixel begins.
    pub open spec fn start(max_depth: u32) -> Bounces {
        Bounces { depth: 0, max_depth, missed: false }
    }

    /// A pixel before its primary ray is traced.
    pub fn new(max_depth: u32) -> (r: Bounces)
        ensures
            r == Bounces::start(max_depth),
            r.wf(),
    {
        Bounces { depth: 0, max_depth, missed: false }
    }

    /// Whether the loop traces the current ray, given whether the reflection
    /// weight is still positive.
    pub fn should_trace(&self, weight_positive: bool) -> (r: bool)
        ensures
            r == self.continues(weight_positive),
    {
        !self.missed && self.depth < self.max_depth && weight_positive
    }

    /// Records the outcome of one traced ray: a hit counts one more depth, a
    /// miss ends the pixel.
    pub fn record(&mut self, hit: bool)
        requires
            old(self).wf(),
            old(self).depth < old(self).max_depth,
        ensures
            *final(self) == old(self).after(hit),
            final(self).wf(),
    {
        if hit {
            self.depth = self.depth + 1;
        } else {
            self.missed = true;
        }
    }
}

/// The number of rays that a pixel in state `b` goes on to trace while its
/// reflection weight stays positive, where the traced rays hit or miss as
/// `hits` says, in turn.
pub open spec fn rays_traced(b: Bounces, hits: Seq<bool>) -> nat
    decreases hits.len(),
{
    if hits.len() == 0 || !b.continues(true) {
        0
    } else {
        1 + rays_traced(b.after(hits[0]), hits.drop_first())
    }
}

/// Whatever the traced rays hit, a pixel traces at most as many rays as its
/// depth has left to the maximum.
pub proof fn lemma_depth_bounds_tracing(b: Bounces, hits: Seq<bool>)
    requires
        b.wf(),
    ensures
        rays_traced(b, hits) <= b.max_depth - b.depth,
    decreases hits.len(),
{
    if hits.len() > 0 && b.continues(true) {
        lemma_depth_bounds_tracing(b.after(hits[0]), hits.drop_first());
    }
}

/// With a maximum depth of zero no ray is ever traced, whatever the weight or
/// the hits, so no shading is accumulated and each pixel keeps its starting
/// value.
pub proof fn lemma_zero_depth_traces_nothing(max_depth: u32, weight_positive: bool, hits: Seq<bool>)
    requires
        max_depth == 0,
    ensures
        !Bounces::start(max_depth).continues(weight_positive),
        rays_traced(Bounces::start(max_depth), hits) == 0,
{
    lemma_depth_bounds_tracing(Bounces::start(max_depth), hits);
}

} // verus!

//! Sprite collision core of a tile-based 2D renderer.
//!
//! A sprite frame is cut into 16×16 tiles.  Its opaque pixels are indexed by
//! a quadtree of row bit masks ([`frame::MeshTree`]), which answers whether
//! two positioned sprites overlap.

use vstd::prelude::*;

pub mod font;
pub mod frame;
pub mod pixels;
pub mod schedule;
pub mod tile;

verus! {

/// Clock counter type: the number of update events seen so far.
pub type Clock = u64;

/// Inclusive time span: the ticks from `start` to `end`.
#[derive(Clone, Copy, Debug, Eq, PartialEq, Structural)]
pub struct Span {
    pub start: Clock,
    pub end: Clock,
}

impl Span {
    pub fn new(s: Clock, e: Clock) -> (span: Span)
        ensures
            span.start == s,
            span.end == e,
    {
        Span { start: s, end: e }
    }

    /// The number of ticks of the span.
    pub open spec fn spec_length(self) -> int {
        1 + self.end - self.start
    }

    /// The number of ticks of the span.  A span may be empty, with its start
    /// one tick after its end, but no more.
    pub fn length(&self) -> (len: Clock)
        requires
            self.end < u64::MAX,
            self.start <= self.end + 1,
        ensures
            len == self.spec_length(),
    {
        1 + self.end - self.start
    }
}

/// The span for which a button was held that is released at the tick
/// `current`: from the tick `pressed` at which it went down or, where that
/// tick is not known, over the last four ticks.
pub fn release_span(pressed: Option<Clock>, current: Clock) -> (span: Span)
    requires
        pressed is None ==> current >= 3,
    ensures
        span == match pressed {
            Some(since) => Span { start: since, end: current },
            None => Span { start: (current - 3) as u64, end: current },
        },
{
    match pressed {
        Some(since) => Span::new(since, current),
        None => Span::new(current - 3, current),
    }
}

} // verus!

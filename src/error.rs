//! Errors reported by the spatial model.
use vstd::prelude::*;

verus! {

/// What went wrong: a layout that cannot be built, a lookup outside the
/// layout, a malformed range, or a query that found no LED.
#[derive(Clone, Copy, Debug, PartialEq, Eq, Structural)]
pub enum SledError {
    /// The layout has no line segments.
    EmptyLayout,
    /// The center point lies outside the coordinate bounds.
    CenterOutOfBounds,
    /// An endpoint of the given segment lies outside the coordinate bounds.
    CoordinateOutOfBounds(usize),
    /// The given segment starts where it ends.
    DegenerateSegment(usize),
    /// The given segment's density is negative or has no positive length.
    InvalidDensity(usize),
    /// The layout holds more LEDs than the model supports.
    TooManyLeds,
    /// No LED has the given index.
    LedOutOfRange(usize),
    /// No line segment has the given index.
    SegmentOutOfRange(usize),
    /// No vertex has the given index.
    VertexOutOfRange(usize),
    /// A range whose start lies past its end, or whose end lies past the table.
    InvalidRange(usize, usize),
    /// No LED lies in the requested direction.
    NoLedInDirection,
    /// No LED lies at the requested distance.
    NoLedsAtDistance,
    /// No LED lies within the requested distance.
    NoLedsWithinDistance,
    /// Nothing is stored under the requested key.
    NoDataAtKey,
    /// What is stored under the requested key is of another kind.
    WrongDataKind,
}

} // verus!

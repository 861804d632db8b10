//! The already-parsed description of a layout: a center point, a default
//! density and an ordered list of line segments.
use vstd::prelude::*;

use crate::geometry::Point;
use crate::segment::{Density, LineSegment};

verus! {

/// One segment as configured; without a density of its own it takes the
/// layout's default.
#[derive(Clone, Copy, Debug, PartialEq, Eq, Structural)]
pub struct SegmentConfig {
    pub start: Point,
    pub end: Point,
    pub density: Option<Density>,
}

pub struct Config {
    pub center_point: Point,
    pub default_density: Density,
    pub line_segments: Vec<SegmentConfig>,
}

impl SegmentConfig {
    /// The segment with its density resolved against `default`.
    pub open spec fn resolve(self, default: Density) -> LineSegment {
        LineSegment {
            start: self.start,
            end: self.end,
            density: match self.density {
                Some(d) => d,
                None => default,
            },
        }
    }

    pub fn resolved(&self, default: Density) -> (r: LineSegment)
        ensures
            r == self.resolve(default),
    {
        let density = match self.density {
            Some(d) => d,
            None => default,
        };
        LineSegment { start: self.start, end: self.end, density }
    }
}

impl Config {
    /// The configured segments, each with its density resolved.
    pub open spec fn segments(self) -> Seq<LineSegment> {
        Seq::new(
            self.line_segments@.len(),
            |i: int| self.line_segments@[i].resolve(self.default_density),
        )
    }
}

} // verus!

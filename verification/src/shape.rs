//! What a drawing of a tree consists of.
//!
//! The tree lays itself out as a list of shapes; putting them on a canvas is
//! left to the caller.

use vstd::prelude::*;
use crate::aabb::AABB;
use crate::point::Point;

verus! {

/// A colour by its red, green and blue parts.
#[derive(Clone, Copy, Debug, PartialEq, Eq, Structural)]
pub struct Color {
    pub r: u8,
    pub g: u8,
    pub b: u8,
}

/// One element of a drawing.
#[derive(Clone, Copy, Debug, PartialEq, Eq, Structural)]
pub enum Shape {
    /// The outline of a node's region, in the colour of the node's depth.
    Outline { region: AABB, color: Color },
    /// A stored point.
    Dot { at: Point },
}

impl Color {
    /// The colour of the next depth: every part halved, rounding down.
    pub open spec fn spec_darker(&self) -> Color {
        Color { r: self.r / 2, g: self.g / 2, b: self.b / 2 }
    }

    /// The colour with the given parts.
    pub fn new(r: u8, g: u8, b: u8) -> (c: Color)
        ensures
            c == (Color { r, g, b }),
    {
        Color { r, g, b }
    }

    /// The colour of the next depth.
    #[verifier::when_used_as_spec(spec_darker)]
    pub fn darker(&self) -> (c: Color)
        ensures
            c == self.spec_darker(),
    {
        Color { r: self.r / 2, g: self.g / 2, b: self.b / 2 }
    }
}

} // verus!

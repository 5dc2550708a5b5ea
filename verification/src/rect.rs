//! A rectangle with a verified area and containment comparison.

use vstd::prelude::*;

verus! {

/// An axis-aligned rectangle given by its side lengths.
#[derive(Clone, Copy, Debug, PartialEq, Eq, Structural)]
pub struct Rectangle {
    pub length: u32,
    pub width: u32,
}

impl Rectangle {
    /// The area of the rectangle.
    ///
    /// The caller must pick side lengths whose product fits in `u32`.
    pub fn area(&self) -> (a: u32)
        requires
            self.length * self.width <= u32::MAX,
        ensures
            a == self.length * self.width,
    {
        self.length * self.width
    }

    /// Whether `rec2` fits strictly inside `self` in both dimensions.
    pub fn can_hold(&self, rec2: Rectangle) -> (r: bool)
        ensures
            r == (self.length > rec2.length && self.width > rec2.width),
    {
        self.length > rec2.length && self.width > rec2.width
    }
}

} // verus!

//! Textures, as far as they are made of other textures or of pixels.

use vstd::prelude::*;

verus! {

/// A texture of two textures that take turns like the fields of a checker
/// board.
#[derive(Debug, Clone)]
pub struct Checker<T1, T2> {
    pub odd: T1,
    pub even: T2,
}

impl<T1, T2> Checker<T1, T2> {
    /// The checker board of the two textures.
    pub fn new(odd: T1, even: T2) -> (checker: Self)
        ensures
            checker == (Checker { odd, even }),
    {
        Self { odd, even }
    }
}

/// The pixel of an image at which a coordinate falls that was scaled to the
/// image's size: a coordinate beyond the last pixel takes the last pixel.
pub fn texel(scaled: u32, size: u32) -> (pixel: u32)
    requires
        size > 0,
    ensures
        pixel == if scaled >= size {
            (size - 1) as u32
        } else {
            scaled
        },
        pixel < size,
{
    if scaled >= size {
        size - 1
    } else {
        scaled
    }
}

} // verus!

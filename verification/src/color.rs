//! Colours as three 8-bit channels, the form in which a pixel is written out.

use vstd::prelude::*;

verus! {

/// A colour with one byte for each of red, green and blue.
#[derive(Debug, Clone, Copy, PartialEq, Eq, Structural)]
pub struct RGBInt {
    pub r: u8,
    pub g: u8,
    pub b: u8,
}

impl RGBInt {
    /// The colour with the given channels.
    pub fn new(r: u8, g: u8, b: u8) -> (color: Self)
        ensures
            color == (RGBInt { r, g, b }),
    {
        Self { r, g, b }
    }

    /// Black, the colour of a pixel that was never rendered.
    pub open spec fn black() -> Self {
        RGBInt { r: 0, g: 0, b: 0 }
    }
}

impl Default for RGBInt {
    /// The default colour is black.
    fn default() -> (color: Self)
        ensures
            color == RGBInt::black(),
    {
        Self { r: 0, g: 0, b: 0 }
    }
}

} // verus!

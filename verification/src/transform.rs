//! The axes about which an object can be turned.

use vstd::prelude::*;

verus! {

/// A turn about the x axis.
#[derive(Debug, Clone, Copy, PartialEq, Eq, Structural)]
pub struct ByXAxis;

/// A turn about the y axis.
#[derive(Debug, Clone, Copy, PartialEq, Eq, Structural)]
pub struct ByYAxis;

/// A turn about the z axis.
#[derive(Debug, Clone, Copy, PartialEq, Eq, Structural)]
pub struct ByZAxis;

} // verus!

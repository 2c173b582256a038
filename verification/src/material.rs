//! Materials, as far as they are settings: which of its ways of scattering a
//! diffuse surface takes.

use vstd::prelude::*;

verus! {

/// The way in which a diffuse surface picks the direction of a scattered
/// ray.
#[derive(Debug, Clone, Copy, PartialEq, Eq, Structural)]
pub enum LambertianMathType {
    /// The normal, moved by a point drawn from inside the unit sphere.
    Approximates,
    /// The normal, moved by a point drawn from the surface of the unit
    /// sphere: a true cosine distribution.
    True,
    /// A direction drawn evenly from the hemisphere around the normal.
    Hemisphere,
}

/// A diffuse material: a texture for its colour, and its way of scattering.
#[derive(Debug, Clone)]
pub struct Lambertian<T> {
    pub texture: T,
    pub math_type: LambertianMathType,
}

impl<T> Lambertian<T> {
    /// A diffuse material with the given texture, which scatters by a true
    /// cosine distribution.
    pub fn new(texture: T) -> (material: Self)
        ensures
            material == (Lambertian { texture, math_type: LambertianMathType::True }),
    {
        Self { texture, math_type: LambertianMathType::True }
    }

    /// The same material, with another way of scattering.
    pub fn math_type(self, value: LambertianMathType) -> (material: Self)
        ensures
            material == (Lambertian { math_type: value, ..self }),
    {
        Self { math_type: value, ..self }
    }
}

/// The curve by which glass reflects more the flatter the light falls on
/// it.
#[derive(Debug, Clone, Copy, PartialEq, Eq, Structural)]
pub struct Glass {}

} // verus!

//! The discrete core of a path tracer: the bounding volume hierarchy and the
//! searches for the nearest hit, the following of a ray through its
//! scatterings, the rendering of a picture row by row, the in-order delivery
//! of rows that were rendered out of order, and the plain-text image format.
//!
//! The library decides and arranges; it does no arithmetic on coordinates,
//! distances or light. Those are values of the caller's types, and the tests
//! of a ray against a box or an object, the blending of light and the colour
//! of a pixel are closures that the caller hands in. The contracts say what
//! the library makes of whatever the closures answer.

pub mod aabb;
pub mod bvh;
pub mod camera;
pub mod color;
pub mod list;
pub mod material;
pub mod nearest;
pub mod noise;
pub mod painter;
pub mod ppm;
pub mod random;
pub mod rect;
pub mod seq_iter;
pub mod sort;
pub mod texture;
pub mod transform;

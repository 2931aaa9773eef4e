//! A Monte Carlo path tracer's decisions, proved: the median-split bounding
//! volume hierarchy and its nearest-hit query, which root of a sphere a ray
//! hits, the scattering rules of its materials, the depth-capped path
//! integrator, and the split of an image into row bands for its workers. The floating-point geometry that feeds
//! these decisions stays with the caller.

pub mod bvh;
pub mod integrator;
pub mod material;
pub mod schedule;
pub mod sphere;

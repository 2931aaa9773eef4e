use vstd::prelude::*;

verus! {

/// Which root of a ray's quadratic against a sphere is its hit.
#[derive(Clone, Copy, Debug, PartialEq, Eq)]
pub enum Root {
    /// `(-b - sqrt(disc)) / a`, the nearer one.
    Near,
    /// `(-b + sqrt(disc)) / a`, the farther one.
    Far,
}

/// `t` lies strictly inside `(t_min, t_max)`.
pub open spec fn inside(t: i64, t_min: i64, t_max: i64) -> bool {
    t_min < t && t < t_max
}

/// No hit where the discriminant is not positive; else the nearer root where
/// it lies inside the interval, else the farther one where it does.
pub open spec fn root_choice(
    discriminant_positive: bool,
    near: i64,
    far: i64,
    t_min: i64,
    t_max: i64,
) -> Option<Root> {
    if !discriminant_positive {
        None
    } else if inside(near, t_min, t_max) {
        Some(Root::Near)
    } else if inside(far, t_min, t_max) {
        Some(Root::Far)
    } else {
        None
    }
}

/// The hit of a ray on a sphere, from the sign of the discriminant and the
/// two roots and the interval's ends, each given as a key whose order is the
/// order of the values.
pub fn pick_root(discriminant_positive: bool, near: i64, far: i64, t_min: i64, t_max: i64) -> (r:
    Option<Root>)
    ensures
        r == root_choice(discriminant_positive, near, far, t_min, t_max),
{
    if !discriminant_positive {
        None
    } else if t_min < near && near < t_max {
        Some(Root::Near)
    } else if t_min < far && far < t_max {
        Some(Root::Far)
    } else {
        None
    }
}

/// A ray whose discriminant is not positive misses the sphere; where it is
/// positive and both roots lie in the interval, the hit is the smaller root.
pub proof fn lemma_nearer_root_wins(
    discriminant_positive: bool,
    near: i64,
    far: i64,
    t_min: i64,
    t_max: i64,
)
    requires
        near <= far,
    ensures
        !discriminant_positive ==> root_choice(discriminant_positive, near, far, t_min, t_max)
            is None,
        discriminant_positive && inside(near, t_min, t_max) && inside(far, t_min, t_max)
            ==> root_choice(discriminant_positive, near, far, t_min, t_max) == Some(Root::Near),
        root_choice(discriminant_positive, near, far, t_min, t_max) == Some(Root::Far) ==> !inside(
            near,
            t_min,
            t_max,
        ) && inside(far, t_min, t_max),
{
}

} // verus!

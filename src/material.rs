use vstd::prelude::*;

verus! {

/// Where a scattered ray goes next.
#[derive(Clone, Copy, Debug, PartialEq, Eq)]
pub enum Bounce {
    /// The normal plus a random point of the unit sphere.
    Diffuse,
    /// The mirror image of the incoming direction about the normal.
    Reflect,
    /// The direction that Snell's law gives.
    Refract,
}

/// What the light carried back along a scattered ray is multiplied by.
#[derive(Clone, Copy, Debug, PartialEq, Eq)]
pub enum Tint<C> {
    /// The surface's albedo, channel by channel.
    Albedo(C),
    /// Nothing: the surface absorbs no light.
    Clear,
}

/// A ray that left a surface again.
#[derive(Clone, Copy, Debug, PartialEq, Eq)]
pub struct Scatter<C> {
    pub attenuation: Tint<C>,
    pub bounce: Bounce,
}

/// What the geometry at a hit says about the incoming ray, measured by the
/// caller from the ray, the normal and the material.
#[derive(Clone, Copy, Debug, PartialEq, Eq)]
pub struct Incidence {
    /// The mirror reflection of the incoming direction has a positive dot
    /// product with the normal.
    pub reflection_leaves: bool,
    /// Snell's law gives a refracted direction: no total internal reflection.
    pub refraction_possible: bool,
    /// A uniform draw in `[0, 1)` fell below the Schlick reflectance. Only
    /// read where refraction is possible.
    pub draw_below_reflectance: bool,
}

/// How a surface scatters light. `None` means the ray is absorbed.
pub trait Material<C> {
    spec fn scatter_spec(&self, incidence: Incidence) -> Option<Scatter<C>>;

    fn scatter(&self, incidence: &Incidence) -> (r: Option<Scatter<C>>)
        ensures
            r == self.scatter_spec(*incidence),
    ;
}

/// A diffuse surface.
#[derive(Clone, Copy, Debug, PartialEq, Eq)]
pub struct Lambertian<C> {
    pub albedo: C,
}

/// A perfect mirror, without roughness.
#[derive(Clone, Copy, Debug, PartialEq, Eq)]
pub struct Metal<C> {
    pub albedo: C,
}

/// A clear surface, such as glass, that reflects or refracts.
#[derive(Clone, Copy, Debug, PartialEq, Eq)]
pub struct Dielectric<R> {
    pub refraction_index: R,
}

impl<C: Copy> Lambertian<C> {
    pub fn with_albedo(albedo: C) -> (r: Lambertian<C>)
        ensures
            r.albedo == albedo,
    {
        Lambertian { albedo }
    }
}

impl<C: Copy> Metal<C> {
    pub fn with_albedo(albedo: C) -> (r: Metal<C>)
        ensures
            r.albedo == albedo,
    {
        Metal { albedo }
    }
}

impl<R: Copy> Dielectric<R> {
    pub fn with_refraction_index(refraction_index: R) -> (r: Dielectric<R>)
        ensures
            r.refraction_index == refraction_index,
    {
        Dielectric { refraction_index }
    }
}

impl<C: Copy> Material<C> for Lambertian<C> {
    /// Always scatters, diffusely, tinted by the albedo.
    open spec fn scatter_spec(&self, incidence: Incidence) -> Option<Scatter<C>> {
        Some(Scatter { attenuation: Tint::Albedo(self.albedo), bounce: Bounce::Diffuse })
    }

    fn scatter(&self, incidence: &Incidence) -> (r: Option<Scatter<C>>) {
        Some(Scatter { attenuation: Tint::Albedo(self.albedo), bounce: Bounce::Diffuse })
    }
}

impl<C: Copy> Material<C> for Metal<C> {
    /// Reflects, tinted by the albedo, where the reflection leaves the
    /// surface; otherwise the ray is absorbed.
    open spec fn scatter_spec(&self, incidence: Incidence) -> Option<Scatter<C>> {
        if incidence.reflection_leaves {
            Some(Scatter { attenuation: Tint::Albedo(self.albedo), bounce: Bounce::Reflect })
        } else {
            None
        }
    }

    fn scatter(&self, incidence: &Incidence) -> (r: Option<Scatter<C>>) {
        if incidence.reflection_leaves {
            Some(Scatter { attenuation: Tint::Albedo(self.albedo), bounce: Bounce::Reflect })
        } else {
            None
        }
    }
}

impl<C, R: Copy> Material<C> for Dielectric<R> {
    /// Always scatters, untinted: it reflects under total internal reflection
    /// or where the draw fell below the reflectance, and refracts otherwise.
    open spec fn scatter_spec(&self, incidence: Incidence) -> Option<Scatter<C>> {
        let bounce = if !incidence.refraction_possible || incidence.draw_below_reflectance {
            Bounce::Reflect
        } else {
            Bounce::Refract
        };
        Some(Scatter { attenuation: Tint::Clear, bounce })
    }

    fn scatter(&self, incidence: &Incidence) -> (r: Option<Scatter<C>>) {
        let bounce = if !incidence.refraction_possible || incidence.draw_below_reflectance {
            Bounce::Reflect
        } else {
            Bounce::Refract
        };
        Some(Scatter { attenuation: Tint::Clear, bounce })
    }
}

/// A diffuse surface scatters every ray, and tints it by its albedo.
pub proof fn lemma_lambertian_always_scatters<C: Copy>(m: Lambertian<C>, incidence: Incidence)
    ensures
        m.scatter_spec(incidence) is Some,
        m.scatter_spec(incidence)->Some_0.attenuation == Tint::Albedo(m.albedo),
{
}

/// A mirror absorbs a ray exactly when the reflected direction does not
/// point out of the surface, and otherwise tints it by its albedo.
pub proof fn lemma_metal_absorbs_inward_reflections<C: Copy>(m: Metal<C>, incidence: Incidence)
    ensures
        m.scatter_spec(incidence) is None <==> !incidence.reflection_leaves,
        m.scatter_spec(incidence) is Some ==> m.scatter_spec(incidence)->Some_0.attenuation
            == Tint::Albedo(m.albedo),
{
}

} // verus!

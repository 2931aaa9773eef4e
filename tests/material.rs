use pathtracer::material::{Bounce, Dielectric, Incidence, Lambertian, Material, Metal, Scatter, Tint};

fn incidence(reflection_leaves: bool, refraction_possible: bool, draw_below_reflectance: bool) -> Incidence {
    Incidence { reflection_leaves, refraction_possible, draw_below_reflectance }
}

#[test]
fn lambertian_keeps_its_albedo() {
    let m = Lambertian::with_albedo((0.4f32, 0.2f32, 0.1f32));
    assert_eq!(m.albedo, (0.4, 0.2, 0.1));
}

#[test]
fn lambertian_always_scatters_with_albedo() {
    let m = Lambertian::with_albedo((0.5f32, 0.5f32, 0.5f32));
    for bits in 0..8u8 {
        let i = incidence(bits & 1 != 0, bits & 2 != 0, bits & 4 != 0);
        assert_eq!(
            m.scatter(&i),
            Some(Scatter { attenuation: Tint::Albedo((0.5, 0.5, 0.5)), bounce: Bounce::Diffuse })
        );
    }
}

#[test]
fn metal_keeps_its_albedo() {
    let m = Metal::with_albedo((0.7f32, 0.6f32, 0.5f32));
    assert_eq!(m.albedo, (0.7, 0.6, 0.5));
}

#[test]
fn metal_reflects_outward() {
    let m = Metal::with_albedo((0.7f32, 0.6f32, 0.5f32));
    assert_eq!(
        m.scatter(&incidence(true, false, false)),
        Some(Scatter { attenuation: Tint::Albedo((0.7, 0.6, 0.5)), bounce: Bounce::Reflect })
    );
}

#[test]
fn metal_absorbs_inward_reflection() {
    let m = Metal::with_albedo((0.7f32, 0.6f32, 0.5f32));
    assert_eq!(m.scatter(&incidence(false, true, true)), None);
    assert_eq!(m.scatter(&incidence(false, false, false)), None);
}

#[test]
fn dielectric_keeps_its_index() {
    let d = Dielectric::with_refraction_index(1.5f32);
    assert_eq!(d.refraction_index, 1.5);
}

#[test]
fn dielectric_reflects_under_total_internal_reflection() {
    let d = Dielectric::with_refraction_index(1.5f32);
    let r: Option<Scatter<(f32, f32, f32)>> = d.scatter(&incidence(true, false, false));
    assert_eq!(r, Some(Scatter { attenuation: Tint::Clear, bounce: Bounce::Reflect }));
}

#[test]
fn dielectric_reflects_below_reflectance() {
    let d = Dielectric::with_refraction_index(1.5f32);
    let r: Option<Scatter<(f32, f32, f32)>> = d.scatter(&incidence(false, true, true));
    assert_eq!(r, Some(Scatter { attenuation: Tint::Clear, bounce: Bounce::Reflect }));
}

#[test]
fn dielectric_refracts_above_reflectance() {
    let d = Dielectric::with_refraction_index(1.5f32);
    let r: Option<Scatter<(f32, f32, f32)>> = d.scatter(&incidence(true, true, false));
    assert_eq!(r, Some(Scatter { attenuation: Tint::Clear, bounce: Bounce::Refract }));
}

use vstd::prelude::*;
use crate::algebra::{Color, Vector};
use crate::geometry::spec_zero_tol;
use crate::geometry::ZERO_TOL_BITS;
use crate::scalar::Scalar;

verus! {

/// A matte surface: it sends every ray on in a random direction about the
/// normal and tints it with its albedo.
#[derive(Debug, Clone, Copy, PartialEq, Eq, Structural)]
pub struct Lambertian {
    pub albedo: Color,
}

/// A matte surface that mirrors rays at glancing angles.
#[derive(Debug, Clone, Copy, PartialEq, Eq, Structural)]
pub struct Glossy {
    pub albedo: Color,
}

/// A matte surface that takes up a ray with a fixed probability.
#[derive(Debug, Clone, Copy, PartialEq, Eq, Structural)]
pub struct LambertianProb {
    pub albedo: Color,
    pub probability: Scalar,
}

/// A mirror with some fuzziness.
#[derive(Debug, Clone, Copy, PartialEq, Eq, Structural)]
pub struct Metal {
    pub albedo: Color,
    pub fuzziness: Scalar,
}

/// A metal whose colour changes with the angle at which a ray meets it.
#[derive(Debug, Clone, Copy, PartialEq, Eq, Structural)]
pub struct SpecularMetal {
    pub albedo: Color,
    pub reflective_albedo: Color,
    pub normal_reflectance: Scalar,
    pub fuzziness: Scalar,
}

/// A clear surface that bends rays.
#[derive(Debug, Clone, Copy, PartialEq, Eq, Structural)]
pub struct Dielectric {
    pub refraction_index_ratio: Scalar,
}

/// Whether a number lies in the closed range from 0 to 1.
pub open spec fn is_fraction(value: Scalar) -> bool {
    Scalar::spec_zero().spec_le(value) && value.spec_le(Scalar::spec_one())
}

/// The direction in which a matte surface sends a ray on: the candidate,
/// which is the normal plus a random unit vector, unless the two nearly
/// cancel, and then the normal itself. `norm_squared` is the squared length
/// of the candidate.
pub fn settle_direction(candidate: Vector, norm_squared: Scalar, normal: Vector) -> (direction:
    Vector)
    ensures
        direction == (if norm_squared.spec_lt(spec_zero_tol()) {
            normal
        } else {
            candidate
        }),
{
    if norm_squared.lt(Scalar::from_bits(ZERO_TOL_BITS)) {
        normal
    } else {
        candidate
    }
}

impl Lambertian {
    pub fn new(albedo: Color) -> (material: Self)
        ensures
            material.albedo == albedo,
    {
        Self { albedo }
    }
}

impl Glossy {
    pub fn new(albedo: Color) -> (material: Self)
        ensures
            material.albedo == albedo,
    {
        Self { albedo }
    }

    /// Whether the surface mirrors the ray. `sample` is a random number
    /// from 0 to 1 and `reflection_probability` is one less the size of the
    /// cosine between the ray and the normal: the ray is mirrored where the
    /// sample is below the probability, and scattered like on a matte
    /// surface otherwise.
    pub fn mirrors(sample: Scalar, reflection_probability: Scalar) -> (r: bool)
        ensures
            r == sample.spec_lt(reflection_probability),
    {
        sample.lt(reflection_probability)
    }
}

impl LambertianProb {
    /// The probability lies between 0 and 1.
    pub fn new(albedo: Color, probability: Scalar) -> (material: Self)
        requires
            is_fraction(probability),
        ensures
            material == (LambertianProb { albedo, probability }),
    {
        Self { albedo, probability }
    }

    /// Whether the surface takes the ray up: where the random sample is
    /// below the probability.
    pub fn absorbs(&self, sample: Scalar) -> (r: bool)
        ensures
            r == sample.spec_lt(self.probability),
    {
        sample.lt(self.probability)
    }
}

impl Metal {
    /// The fuzziness is not below zero.
    pub fn new(albedo: Color, fuzziness: Scalar) -> (material: Self)
        requires
            Scalar::spec_zero().spec_le(fuzziness),
        ensures
            material == (Metal { albedo, fuzziness }),
    {
        Self { albedo, fuzziness }
    }

    /// A mirror without fuzziness.
    pub fn polished(albedo: Color) -> (material: Self)
        ensures
            material == (Metal { albedo, fuzziness: Scalar::spec_zero() }),
    {
        Self { albedo, fuzziness: Scalar::zero() }
    }
}

impl SpecularMetal {
    /// The fuzziness is not below zero and the reflectance at normal
    /// incidence lies between 0 and 1.
    pub fn new(
        albedo: Color,
        reflective_albedo: Color,
        normal_reflectance: Scalar,
        fuzziness: Scalar,
    ) -> (material: Self)
        requires
            Scalar::spec_zero().spec_le(fuzziness),
            is_fraction(normal_reflectance),
        ensures
            material == (SpecularMetal { albedo, reflective_albedo, normal_reflectance, fuzziness }),
    {
        Self { albedo, reflective_albedo, normal_reflectance, fuzziness }
    }

    /// A specular metal without fuzziness.
    pub fn polished(albedo: Color, reflective_albedo: Color, normal_reflectance: Scalar) -> (material:
        Self)
        ensures
            material == (SpecularMetal {
                albedo,
                reflective_albedo,
                normal_reflectance,
                fuzziness: Scalar::spec_zero(),
            }),
    {
        Self { albedo, reflective_albedo, normal_reflectance, fuzziness: Scalar::zero() }
    }

    /// The tint of a ray that the surface sends on: the albedo where the
    /// random sample is below the reflectance at the ray's angle, and the
    /// reflective albedo otherwise.
    pub fn attenuation(&self, sample: Scalar, reflectance: Scalar) -> (tint: Color)
        ensures
            tint == (if sample.spec_lt(reflectance) {
                self.albedo
            } else {
                self.reflective_albedo
            }),
    {
        if sample.lt(reflectance) {
            self.albedo
        } else {
            self.reflective_albedo
        }
    }
}

impl Dielectric {
    pub fn new(refraction_index: Scalar) -> (material: Self)
        ensures
            material.refraction_index_ratio == refraction_index,
    {
        Self { refraction_index_ratio: refraction_index }
    }

    /// The cosine between the ray and the normal, held to 1 at most.
    pub fn clamp_cosine(along: Scalar) -> (cosine: Scalar)
        ensures
            cosine == along.spec_min(Scalar::spec_one()),
    {
        along.min(Scalar::one())
    }

    /// Whether the surface mirrors the ray in place of bending it: where
    /// the ratio of the refraction indices times the sine of the angle of
    /// incidence is above 1, no bent ray exists.
    pub fn reflects(ratio_times_sine: Scalar) -> (r: bool)
        ensures
            r == Scalar::spec_one().spec_lt(ratio_times_sine),
    {
        ratio_times_sine.gt(Scalar::one())
    }

    /// The tint of a ray that the surface sends on: always white, since a
    /// clear surface takes up nothing.
    pub fn attenuation(&self) -> (tint: Color)
        ensures
            tint == (Color { r: Scalar::spec_one(), g: Scalar::spec_one(), b: Scalar::spec_one() }),
    {
        Color::white()
    }
}

} // verus!

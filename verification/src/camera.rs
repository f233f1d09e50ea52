use vstd::prelude::*;
use crate::algebra::{Point, Vector};
use crate::scalar::Scalar;
use crate::types::{Dimensions, Range};

verus! {

/// The pattern of 180, the upper end of both angles in degrees.
pub const HALF_TURN_BITS: u32 = 0x4334_0000;

/// The pattern of 90, the field of view of a camera that was not told one.
pub const QUARTER_TURN_BITS: u32 = 0x42b4_0000;

/// The pattern of 1e-6, under which the squared length of an up vector
/// counts as zero.
pub const UP_TOLERANCE_BITS: u32 = 0x3586_37bd;

/// The pattern of 0.001, the least parameter at which a ray can hit: what
/// is nearer is the surface that the ray has just left.
pub const NEAR_BITS: u32 = 0x3a83_126f;

/// Why a setting of the camera was refused.
#[derive(Debug, Clone, Copy, PartialEq, Eq, Structural)]
pub enum BuilderError {
    FovOutOfRange,
    LookingAtCenter,
    ZeroVup,
    DefocusAngleOutOfRange,
    NonPositiveFocusDistance,
    ZeroDepth,
    ZeroSamples,
}

/// A ray: the points `origin + t * direction` for the parameters `t`.
#[derive(Debug, Clone, Copy, PartialEq, Eq, Structural)]
pub struct Ray {
    pub origin: Point,
    pub direction: Vector,
}

impl Ray {
    pub fn new(origin: Point, direction: Vector) -> (ray: Self)
        ensures
            ray == (Ray { origin, direction }),
    {
        Self { origin, direction }
    }
}

/// The settings of a camera, each checked when it is set. Angles are kept
/// in degrees, as they are given.
#[derive(Debug, Clone, Copy, PartialEq, Eq, Structural)]
pub struct CameraBuilder {
    pub vertical_field_of_view: Scalar,
    pub look_from: Point,
    pub look_at: Point,
    pub v_up: Vector,
    pub defocus_angle: Scalar,
    pub focus_distance: Scalar,
    pub max_depth: usize,
}

/// One hundred and eighty degrees.
pub open spec fn half_turn() -> Scalar {
    Scalar { bits: HALF_TURN_BITS }
}

/// The squared length under which an up vector counts as zero.
pub open spec fn up_tolerance() -> Scalar {
    Scalar { bits: UP_TOLERANCE_BITS }
}

/// The settings of a camera that was told nothing: a field of view of 90
/// degrees, at the origin, looking down the negative z axis with y up, no
/// defocus, a focus distance of 1 and at most 10 bounces.
pub open spec fn default_settings() -> CameraBuilder {
    CameraBuilder {
        vertical_field_of_view: Scalar { bits: QUARTER_TURN_BITS },
        look_from: Point { x: Scalar::spec_zero(), y: Scalar::spec_zero(), z: Scalar::spec_zero() },
        look_at: Point {
            x: Scalar::spec_zero().spec_neg(),
            y: Scalar::spec_zero().spec_neg(),
            z: Scalar::spec_one().spec_neg(),
        },
        v_up: Vector { x: Scalar::spec_zero(), y: Scalar::spec_one(), z: Scalar::spec_zero() },
        defocus_angle: Scalar::spec_zero(),
        focus_distance: Scalar::spec_one(),
        max_depth: 10,
    }
}

impl Default for CameraBuilder {
    fn default() -> (builder: Self)
        ensures
            builder == default_settings(),
    {
        Self {
            vertical_field_of_view: Scalar::from_bits(QUARTER_TURN_BITS),
            look_from: Point::zeros(),
            look_at: Point::z().to_vector().neg().to_point(),
            v_up: Vector::y(),
            defocus_angle: Scalar::zero(),
            focus_distance: Scalar::one(),
            max_depth: 10,
        }
    }
}

impl CameraBuilder {
    /// The settings of a camera that was told nothing.
    pub fn new() -> (builder: Self)
        ensures
            builder == default_settings(),
    {
        Self::default()
    }

    /// Sets the vertical field of view, in degrees. It is refused unless it
    /// lies strictly between 0 and 180.
    pub fn set_vertical_field_of_view(&mut self, angle: Scalar) -> (r: Result<(), BuilderError>)
        ensures
            r is Ok <==> Scalar::spec_zero().spec_lt(angle) && angle.spec_lt(half_turn()),
            r is Err ==> r == Err::<(), BuilderError>(BuilderError::FovOutOfRange) && *final(self)
                == *old(self),
            r is Ok ==> *final(self) == (CameraBuilder {
                vertical_field_of_view: angle,
                ..*old(self)
            }),
    {
        if !(angle.gt(Scalar::zero()) && angle.lt(Scalar::from_bits(HALF_TURN_BITS))) {
            return Err(BuilderError::FovOutOfRange);
        }
        self.vertical_field_of_view = angle;
        Ok(())
    }

    /// Sets the point that the camera looks from. It is refused where it is
    /// the point that the camera looks at.
    pub fn set_look_from(&mut self, look_from: Point) -> (r: Result<(), BuilderError>)
        ensures
            r is Ok <==> !(look_from.x.spec_same(old(self).look_at.x) && look_from.y.spec_same(
                old(self).look_at.y,
            ) && look_from.z.spec_same(old(self).look_at.z)),
            r is Err ==> r == Err::<(), BuilderError>(BuilderError::LookingAtCenter) && *final(self)
                == *old(self),
            r is Ok ==> *final(self) == (CameraBuilder { look_from, ..*old(self) }),
    {
        if look_from.same_place(&self.look_at) {
            return Err(BuilderError::LookingAtCenter);
        }
        self.look_from = look_from;
        Ok(())
    }

    /// Sets the point that the camera looks at. It is refused where it is
    /// the point that the camera looks from.
    pub fn set_look_at(&mut self, look_at: Point) -> (r: Result<(), BuilderError>)
        ensures
            r is Ok <==> !(old(self).look_from.x.spec_same(look_at.x) && old(
                self,
            ).look_from.y.spec_same(look_at.y) && old(self).look_from.z.spec_same(look_at.z)),
            r is Err ==> r == Err::<(), BuilderError>(BuilderError::LookingAtCenter) && *final(self)
                == *old(self),
            r is Ok ==> *final(self) == (CameraBuilder { look_at, ..*old(self) }),
    {
        if self.look_from.same_place(&look_at) {
            return Err(BuilderError::LookingAtCenter);
        }
        self.look_at = look_at;
        Ok(())
    }

    /// Sets the up vector. `norm_squared` is the squared length of the
    /// vector that was asked for and `normalized` that vector scaled to
    /// length one, which is what is stored. It is refused where the squared
    /// length is below the tolerance.
    pub fn set_vup(&mut self, normalized: Vector, norm_squared: Scalar) -> (r: Result<
        (),
        BuilderError,
    >)
        ensures
            r is Ok <==> !norm_squared.spec_lt(up_tolerance()),
            r is Err ==> r == Err::<(), BuilderError>(BuilderError::ZeroVup) && *final(self) == *old(
                self,
            ),
            r is Ok ==> *final(self) == (CameraBuilder { v_up: normalized, ..*old(self) }),
    {
        if norm_squared.lt(Scalar::from_bits(UP_TOLERANCE_BITS)) {
            return Err(BuilderError::ZeroVup);
        }
        self.v_up = normalized;
        Ok(())
    }

    /// Sets the greatest number of bounces. Zero is refused.
    pub fn set_max_depth(&mut self, depth: usize) -> (r: Result<(), BuilderError>)
        ensures
            r is Ok <==> depth != 0,
            r is Err ==> r == Err::<(), BuilderError>(BuilderError::ZeroDepth) && *final(self)
                == *old(self),
            r is Ok ==> *final(self) == (CameraBuilder { max_depth: depth, ..*old(self) }),
    {
        if depth == 0 {
            return Err(BuilderError::ZeroDepth);
        }
        self.max_depth = depth;
        Ok(())
    }

    /// Sets the defocus angle, in degrees. It is refused unless it is at
    /// least 0 and less than 180.
    pub fn set_defocus_angle(&mut self, angle: Scalar) -> (r: Result<(), BuilderError>)
        ensures
            r is Ok <==> Scalar::spec_zero().spec_le(angle) && angle.spec_lt(half_turn()),
            r is Err ==> r == Err::<(), BuilderError>(BuilderError::DefocusAngleOutOfRange)
                && *final(self) == *old(self),
            r is Ok ==> *final(self) == (CameraBuilder { defocus_angle: angle, ..*old(self) }),
    {
        if !(angle.ge(Scalar::zero()) && angle.lt(Scalar::from_bits(HALF_TURN_BITS))) {
            return Err(BuilderError::DefocusAngleOutOfRange);
        }
        self.defocus_angle = angle;
        Ok(())
    }

    /// Sets the focus distance. It is refused unless it is at least zero.
    pub fn set_focus_distance(&mut self, distance: Scalar) -> (r: Result<(), BuilderError>)
        ensures
            r is Ok <==> Scalar::spec_zero().spec_le(distance),
            r is Err ==> r == Err::<(), BuilderError>(BuilderError::NonPositiveFocusDistance)
                && *final(self) == *old(self),
            r is Ok ==> *final(self) == (CameraBuilder { focus_distance: distance, ..*old(self) }),
    {
        if !distance.ge(Scalar::zero()) {
            return Err(BuilderError::NonPositiveFocusDistance);
        }
        self.focus_distance = distance;
        Ok(())
    }

    /// Whether the origin of a ray is jittered over the lens: only where the
    /// defocus angle is above zero.
    pub fn uses_lens(&self) -> (r: bool)
        ensures
            r == Scalar::spec_zero().spec_lt(self.defocus_angle),
    {
        uses_lens(self.defocus_angle)
    }

    /// The camera for an image of the given size, with the given number of
    /// samples for each pixel, which must be at least one. What the camera
    /// is made from is handed on as it was set.
    pub fn build(&self, dimensions: Dimensions, samples_per_pixel: usize) -> (r: Result<
        Camera,
        BuilderError,
    >)
        ensures
            r is Ok <==> samples_per_pixel != 0,
            r is Err ==> r == Err::<Camera, BuilderError>(BuilderError::ZeroSamples),
            r is Ok ==> r == Ok::<Camera, BuilderError>(
                Camera { settings: *self, dimensions, samples_per_pixel },
            ),
    {
        if samples_per_pixel == 0 {
            return Err(BuilderError::ZeroSamples);
        }
        Ok(Camera { settings: *self, dimensions, samples_per_pixel })
    }
}

/// A camera as it was set up: the settings, each of which was checked, the
/// size of the image and the number of samples for each pixel. The vectors
/// that rays are cast with are worked out from these.
#[derive(Debug, Clone, Copy, PartialEq, Eq, Structural)]
pub struct Camera {
    pub settings: CameraBuilder,
    pub dimensions: Dimensions,
    pub samples_per_pixel: usize,
}

/// Whether a camera with the given defocus angle jitters the origin of its
/// rays over the lens: only where the angle is above zero.
pub fn uses_lens(defocus_angle: Scalar) -> (r: bool)
    ensures
        r == Scalar::spec_zero().spec_lt(defocus_angle),
{
    defocus_angle.gt(Scalar::zero())
}

/// What happened to a ray that was sent into the scene: it hit nothing, it
/// hit a surface that took it up, or it hit one that sent it on.
#[derive(Debug, Clone, Copy, PartialEq, Eq, Structural)]
pub enum PathEvent {
    Missed,
    Absorbed,
    Scattered,
}

/// What the colour of a ray is, or how to go on: it is black, it is the
/// colour of the sky in the ray's direction, or it is the colour of the ray
/// that the surface sent on, with `depth` bounces left, times the
/// attenuation of the surface.
#[derive(Debug, Clone, Copy, PartialEq, Eq, Structural)]
pub enum PathStep {
    Black,
    Sky,
    Follow { depth: usize },
}

/// The range of parameters in which a ray is tested against the scene: from
/// just off its origin to infinity.
pub fn hit_range() -> (range: Range)
    ensures
        range == Range(Scalar { bits: NEAR_BITS }, Scalar::spec_infinity()),
{
    Range(Scalar::from_bits(NEAR_BITS), Scalar::infinity())
}

/// The colour of a ray with `depth` bounces left, given what happened to it
/// in the scene. With no bounce left it is black and was not sent. A ray
/// that hit nothing has the colour of the sky; one that was taken up is
/// black; one that was sent on has the colour of the new ray, with one
/// bounce less, times the attenuation.
pub fn ray_color(depth: usize, event: PathEvent) -> (step: PathStep)
    ensures
        depth == 0 ==> step == PathStep::Black,
        depth > 0 ==> step == (match event {
            PathEvent::Missed => PathStep::Sky,
            PathEvent::Absorbed => PathStep::Black,
            PathEvent::Scattered => PathStep::Follow { depth: (depth - 1) as usize },
        }),
{
    if depth == 0 {
        return PathStep::Black;
    }
    match event {
        PathEvent::Missed => PathStep::Sky,
        PathEvent::Absorbed => PathStep::Black,
        PathEvent::Scattered => PathStep::Follow { depth: depth - 1 },
    }
}

} // verus!

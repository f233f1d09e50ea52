use vstd::prelude::*;
use crate::algebra::{Point, Vector};
use crate::scalar::Scalar;
use crate::types::Range;

verus! {

/// The tolerance under which a length counts as zero: the pattern of 1e-8.
pub const ZERO_TOL_BITS: u32 = 0x322b_cc77;

/// The tolerance under which a length counts as zero.
pub open spec fn spec_zero_tol() -> Scalar {
    Scalar { bits: ZERO_TOL_BITS }
}

/// Where a ray meets a surface: the point, the normal turned against the
/// ray, the ray's parameter there, whether the ray came from outside, and
/// the handle of the surface's material.
#[derive(Debug, Clone, Copy, PartialEq, Eq, Structural)]
pub struct Collision {
    pub point: Point,
    pub normal: Vector,
    pub t: Scalar,
    pub is_front_facing: bool,
    pub material: usize,
}

/// The first of two results that is there: `first`, or else `second`.
pub open spec fn spec_or(first: Option<Collision>, second: Option<Collision>) -> Option<Collision> {
    if first is Some {
        first
    } else {
        second
    }
}

/// The first of two results that is there: `first`, or else `second`.
pub fn or(first: Option<Collision>, second: Option<Collision>) -> (r: Option<Collision>)
    ensures
        r == spec_or(first, second),
{
    match first {
        Some(c) => Some(c),
        None => second,
    }
}

/// The rule by which a normal is turned against the ray, the same for
/// every primitive. `along` is the dot product of the ray's direction and
/// the outward normal: where it is above zero the ray comes from behind, the
/// normal is turned round and the face is not the front; otherwise the
/// normal is kept and the face is the front.
pub open spec fn spec_face(along: Scalar, outward_normal: Vector) -> (bool, Vector) {
    if Scalar::spec_zero().spec_lt(along) {
        (false, outward_normal.spec_neg())
    } else {
        (true, outward_normal)
    }
}

/// Turns an outward normal against the ray, and says whether the ray meets
/// the front face.
pub fn get_face(along: Scalar, outward_normal: Vector) -> (face: (bool, Vector))
    ensures
        face == spec_face(along, outward_normal),
{
    if along.gt(Scalar::zero()) {
        (false, outward_normal.neg())
    } else {
        (true, outward_normal)
    }
}

/// Which root of a sphere's quadratic counts as the hit. `delta` is the
/// discriminant, `near` the lesser root and `far` the greater. No root
/// counts where the discriminant is negative; else the lesser root unless it
/// lies outside the range, and then the greater unless it lies outside too.
pub open spec fn spec_choose_root(delta: Scalar, near: Scalar, far: Scalar, t_range: Range) -> Option<
    Scalar,
> {
    if delta.spec_lt(Scalar::spec_zero()) {
        None
    } else if !(near.spec_lt(t_range.0) || t_range.1.spec_lt(near)) {
        Some(near)
    } else if !(far.spec_lt(t_range.0) || t_range.1.spec_lt(far)) {
        Some(far)
    } else {
        None
    }
}

/// Picks the root of a sphere's quadratic that counts as the hit.
pub fn choose_root(delta: Scalar, near: Scalar, far: Scalar, t_range: Range) -> (root: Option<
    Scalar,
>)
    ensures
        root == spec_choose_root(delta, near, far, t_range),
{
    if delta.lt(Scalar::zero()) {
        return None;
    }
    let mut root = near;
    if t_range.not_contains(root) {
        root = far;
        if t_range.not_contains(root) {
            return None;
        }
    }
    Some(root)
}

/// Whether a ray meets a plane inside the range, and on which face.
/// `along` is the dot product of the ray's direction and the plane's normal,
/// `root` the parameter at which the ray meets the plane. A ray that runs
/// along the plane meets nothing, nor does one that meets it outside the
/// range. Otherwise the face and the normal are what the rule for every
/// primitive gives.
pub open spec fn spec_plane_face(along: Scalar, root: Scalar, t_range: Range, normal: Vector) -> Option<
    (bool, Vector),
> {
    if along.spec_same(Scalar::spec_zero()) || !t_range.spec_contains(root) {
        None
    } else {
        Some(spec_face(along, normal))
    }
}

/// Decides whether a ray meets a plane inside the range, and on which face.
pub fn plane_face(along: Scalar, root: Scalar, t_range: Range, normal: Vector) -> (face: Option<
    (bool, Vector),
>)
    ensures
        face == spec_plane_face(along, root, t_range, normal),
{
    if along.same_value(Scalar::zero()) {
        return None;
    }
    if !t_range.contains(root) {
        return None;
    }
    Some(get_face(along, normal))
}

/// Whether a ray meets a unit parallelogram that lies in the plane z = 0 of
/// its own coordinates. `direction_z` is the ray's direction along z there,
/// `t` the parameter at which it meets the plane, `u` and `v` the
/// coordinates of that point. It does where the ray does not run along the
/// plane, `t` lies in the range and both coordinates lie in [0, 1].
pub open spec fn spec_parallelogram_accepts(
    direction_z: Scalar,
    t: Scalar,
    u: Scalar,
    v: Scalar,
    t_range: Range,
) -> bool {
    let unit = Range(Scalar::spec_zero(), Scalar::spec_one());
    &&& !direction_z.spec_abs().spec_le(spec_zero_tol())
    &&& !(t.spec_lt(t_range.0) || t_range.1.spec_lt(t))
    &&& !(u.spec_lt(unit.0) || unit.1.spec_lt(u))
    &&& !(v.spec_lt(unit.0) || unit.1.spec_lt(v))
}

/// Decides whether a ray meets a unit parallelogram.
pub fn parallelogram_accepts(
    direction_z: Scalar,
    t: Scalar,
    u: Scalar,
    v: Scalar,
    t_range: Range,
) -> (r: bool)
    ensures
        r == spec_parallelogram_accepts(direction_z, t, u, v, t_range),
{
    if direction_z.abs().le(Scalar::from_bits(ZERO_TOL_BITS)) {
        return false;
    }
    if t_range.not_contains(t) {
        return false;
    }
    let param_range = Range(Scalar::zero(), Scalar::one());
    if param_range.not_contains(u) || param_range.not_contains(v) {
        return false;
    }
    true
}

} // verus!

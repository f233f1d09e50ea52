use vstd::prelude::*;
use crate::scalar::Scalar;

verus! {

/// A place in space. Of the same shape as `Vector` and `Color`, and turned
/// into either only by an explicit conversion.
#[derive(Debug, Clone, Copy, PartialEq, Eq, Structural)]
pub struct Point {
    pub x: Scalar,
    pub y: Scalar,
    pub z: Scalar,
}

/// A direction or a displacement.
#[derive(Debug, Clone, Copy, PartialEq, Eq, Structural)]
pub struct Vector {
    pub x: Scalar,
    pub y: Scalar,
    pub z: Scalar,
}

/// An amount of light in the channels red, green and blue.
#[derive(Debug, Clone, Copy, PartialEq, Eq, Structural)]
pub struct Color {
    pub r: Scalar,
    pub g: Scalar,
    pub b: Scalar,
}

impl Point {
    pub fn new(x: Scalar, y: Scalar, z: Scalar) -> (p: Self)
        ensures
            p == (Point { x, y, z }),
    {
        Point { x, y, z }
    }

    /// The origin.
    pub fn zeros() -> (p: Self)
        ensures
            p.x.bits == 0 && p.y.bits == 0 && p.z.bits == 0,
    {
        Point { x: Scalar::zero(), y: Scalar::zero(), z: Scalar::zero() }
    }

    /// The point one unit along the x axis.
    pub fn x() -> (p: Self)
        ensures
            p.x.bits == 0x3f80_0000 && p.y.bits == 0 && p.z.bits == 0,
    {
        Point { x: Scalar::one(), y: Scalar::zero(), z: Scalar::zero() }
    }

    /// The point one unit along the y axis.
    pub fn y() -> (p: Self)
        ensures
            p.x.bits == 0 && p.y.bits == 0x3f80_0000 && p.z.bits == 0,
    {
        Point { x: Scalar::zero(), y: Scalar::one(), z: Scalar::zero() }
    }

    /// The point one unit along the z axis.
    pub fn z() -> (p: Self)
        ensures
            p.x.bits == 0 && p.y.bits == 0 && p.z.bits == 0x3f80_0000,
    {
        Point { x: Scalar::zero(), y: Scalar::zero(), z: Scalar::one() }
    }

    /// The same three numbers, read as a displacement from the origin.
    pub fn to_vector(self) -> (v: Vector)
        ensures
            v == (Vector { x: self.x, y: self.y, z: self.z }),
    {
        Vector { x: self.x, y: self.y, z: self.z }
    }

    /// Whether two points have equal coordinates as numbers.
    pub fn same_place(&self, other: &Point) -> (r: bool)
        ensures
            r == (self.x.spec_same(other.x) && self.y.spec_same(other.y) && self.z.spec_same(
                other.z,
            )),
    {
        self.x.same_value(other.x) && self.y.same_value(other.y) && self.z.same_value(other.z)
    }
}

impl Vector {
    pub fn new(x: Scalar, y: Scalar, z: Scalar) -> (v: Self)
        ensures
            v == (Vector { x, y, z }),
    {
        Vector { x, y, z }
    }

    /// The vector of no length.
    pub fn zeros() -> (v: Self)
        ensures
            v.x.bits == 0 && v.y.bits == 0 && v.z.bits == 0,
    {
        Vector { x: Scalar::zero(), y: Scalar::zero(), z: Scalar::zero() }
    }

    /// The unit vector along the x axis.
    pub fn x() -> (v: Self)
        ensures
            v.x.bits == 0x3f80_0000 && v.y.bits == 0 && v.z.bits == 0,
    {
        Vector { x: Scalar::one(), y: Scalar::zero(), z: Scalar::zero() }
    }

    /// The unit vector along the y axis.
    pub fn y() -> (v: Self)
        ensures
            v.x.bits == 0 && v.y.bits == 0x3f80_0000 && v.z.bits == 0,
    {
        Vector { x: Scalar::zero(), y: Scalar::one(), z: Scalar::zero() }
    }

    /// The unit vector along the z axis.
    pub fn z() -> (v: Self)
        ensures
            v.x.bits == 0 && v.y.bits == 0 && v.z.bits == 0x3f80_0000,
    {
        Vector { x: Scalar::zero(), y: Scalar::zero(), z: Scalar::one() }
    }

    /// The vector of the same length that points the other way.
    pub open spec fn spec_neg(self) -> Vector {
        Vector { x: self.x.spec_neg(), y: self.y.spec_neg(), z: self.z.spec_neg() }
    }

    /// The vector of the same length that points the other way.
    pub fn neg(self) -> (v: Self)
        ensures
            v == self.spec_neg(),
    {
        Vector { x: self.x.neg(), y: self.y.neg(), z: self.z.neg() }
    }

    /// The same three numbers, read as a place.
    pub fn to_point(self) -> (p: Point)
        ensures
            p == (Point { x: self.x, y: self.y, z: self.z }),
    {
        Point { x: self.x, y: self.y, z: self.z }
    }
}

impl Color {
    pub fn new(r: Scalar, g: Scalar, b: Scalar) -> (c: Self)
        ensures
            c == (Color { r, g, b }),
    {
        Color { r, g, b }
    }

    /// The three channels, each cut off to a whole number and held to the
    /// range of a byte. The channels are taken as they are: a colour is
    /// scaled to the range of a byte, and gamma encoded, before it is cut.
    pub fn to_bytes(&self) -> (bytes: [u8; 3])
        ensures
            bytes[0] == self.r.spec_to_byte(),
            bytes[1] == self.g.spec_to_byte(),
            bytes[2] == self.b.spec_to_byte(),
    {
        [self.r.to_byte(), self.g.to_byte(), self.b.to_byte()]
    }

    /// No light in any channel.
    pub fn black() -> (c: Self)
        ensures
            c.r.bits == 0 && c.g.bits == 0 && c.b.bits == 0,
    {
        Color { r: Scalar::zero(), g: Scalar::zero(), b: Scalar::zero() }
    }

    /// Full light in every channel.
    pub fn white() -> (c: Self)
        ensures
            c.r.bits == 0x3f80_0000 && c.g.bits == 0x3f80_0000 && c.b.bits == 0x3f80_0000,
    {
        Color { r: Scalar::one(), g: Scalar::one(), b: Scalar::one() }
    }
}

} // verus!

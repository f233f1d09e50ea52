use vstd::prelude::*;
use std::cmp::Ordering;
use crate::geometry::{spec_zero_tol, ZERO_TOL_BITS};
use crate::scalar::Scalar;
use crate::types::Range;

verus! {

/// An axis-aligned box: one closed range for each of the axes x, y and z.
/// A box is made from ranges or corners together with the lengths of its
/// axes, so that no axis is left thinner than the tolerance; or as the union
/// of two boxes.
#[derive(Debug, Clone, Copy, PartialEq, Eq, Structural)]
pub struct BoundingBox {
    x: Range,
    y: Range,
    z: Range,
}

/// The range of one axis of a new box: the range that was asked for, or,
/// where its length is below the tolerance, the widened range.
pub open spec fn padded(range: Range, length: Scalar, widened: Range) -> Range {
    if length.spec_lt(spec_zero_tol()) {
        widened
    } else {
        range
    }
}

/// The range between two coordinates, in either order.
pub open spec fn between(a: Scalar, b: Scalar) -> Range {
    Range(a.spec_min(b), a.spec_max(b))
}

impl BoundingBox {
    /// The three ranges of the box, x first.
    pub closed spec fn extents(&self) -> (Range, Range, Range) {
        (self.x, self.y, self.z)
    }

    /// The box with the three given ranges.
    pub closed spec fn of(x: Range, y: Range, z: Range) -> BoundingBox {
        BoundingBox { x, y, z }
    }

    /// The range of the box on axis 0 (x), 1 (y) or 2 (z).
    pub open spec fn extent(&self, axis: usize) -> Range {
        if axis == 0 {
            self.extents().0
        } else if axis == 1 {
            self.extents().1
        } else {
            self.extents().2
        }
    }

    /// Whether the point with the given coordinates lies in the box.
    pub open spec fn holds_point(&self, x: Scalar, y: Scalar, z: Scalar) -> bool {
        &&& self.extents().0.spec_contains(x)
        &&& self.extents().1.spec_contains(y)
        &&& self.extents().2.spec_contains(z)
    }

    /// The least box that holds both boxes: on each axis the lesser lower
    /// end and the greater upper end.
    pub open spec fn spec_union(&self, other: &BoundingBox) -> BoundingBox {
        Self::of(
            self.extents().0.spec_union(other.extents().0),
            self.extents().1.spec_union(other.extents().1),
            self.extents().2.spec_union(other.extents().2),
        )
    }

    /// The box that holds nothing and changes no box it is united with.
    pub open spec fn spec_empty() -> BoundingBox {
        Self::of(
            Range(Scalar::spec_infinity(), Scalar::spec_neg_infinity()),
            Range(Scalar::spec_infinity(), Scalar::spec_neg_infinity()),
            Range(Scalar::spec_infinity(), Scalar::spec_neg_infinity()),
        )
    }

    /// No end of any of the three ranges is not a number.
    pub open spec fn ends_are_numbers(&self) -> bool {
        &&& self.extents().0.ends_are_numbers()
        &&& self.extents().1.ends_are_numbers()
        &&& self.extents().2.ends_are_numbers()
    }

    /// Both coordinates lie in the range between them.
    pub proof fn lemma_between_holds(a: Scalar, b: Scalar)
        requires
            !a.nan(),
            !b.nan(),
        ensures
            between(a, b).spec_contains(a),
            between(a, b).spec_contains(b),
    {
    }

    /// A box is its three ranges and nothing else.
    pub proof fn lemma_extents(x: Range, y: Range, z: Range, other: BoundingBox)
        ensures
            Self::of(x, y, z).extents() == (x, y, z),
            other == Self::of(other.extents().0, other.extents().1, other.extents().2),
    {
    }

    /// Whether an axis of the given length is too thin for the slab test
    /// and has to be widened: where the length is below the tolerance.
    pub fn is_thin(length: Scalar) -> (thin: bool)
        ensures
            thin == length.spec_lt(spec_zero_tol()),
    {
        length.lt(Scalar::from_bits(ZERO_TOL_BITS))
    }

    /// The range of one axis of a new box.
    fn pad(range: Range, length: Scalar, widened: Range) -> (r: Range)
        ensures
            r == padded(range, length, widened),
    {
        if Self::is_thin(length) {
            widened
        } else {
            range
        }
    }

    /// The box with the given ranges, no axis left thinner than the
    /// tolerance. For each axis the caller hands in the length of the range
    /// and the range widened about its middle to the tolerance: where the
    /// length is below the tolerance the box has the widened range, and
    /// else the range itself.
    pub fn new(
        x: Range,
        y: Range,
        z: Range,
        lengths: (Scalar, Scalar, Scalar),
        widened: (Range, Range, Range),
    ) -> (bounds: Self)
        ensures
            bounds == Self::of(
                padded(x, lengths.0, widened.0),
                padded(y, lengths.1, widened.1),
                padded(z, lengths.2, widened.2),
            ),
            bounds.extents() == (
                padded(x, lengths.0, widened.0),
                padded(y, lengths.1, widened.1),
                padded(z, lengths.2, widened.2),
            ),
    {
        Self {
            x: Self::pad(x, lengths.0, widened.0),
            y: Self::pad(y, lengths.1, widened.1),
            z: Self::pad(z, lengths.2, widened.2),
        }
    }

    /// The box between two opposite corners, each given by its coordinates,
    /// no axis left thinner than the tolerance. On each axis the range runs
    /// from the lesser to the greater coordinate; the caller hands in its
    /// length and the range widened about its middle to the tolerance, which
    /// the box has where the length is below the tolerance.
    pub fn from_extrema(
        p: (Scalar, Scalar, Scalar),
        q: (Scalar, Scalar, Scalar),
        lengths: (Scalar, Scalar, Scalar),
        widened: (Range, Range, Range),
    ) -> (bounds: Self)
        ensures
            bounds == Self::of(
                padded(between(p.0, q.0), lengths.0, widened.0),
                padded(between(p.1, q.1), lengths.1, widened.1),
                padded(between(p.2, q.2), lengths.2, widened.2),
            ),
            bounds.extents() == (
                padded(between(p.0, q.0), lengths.0, widened.0),
                padded(between(p.1, q.1), lengths.1, widened.1),
                padded(between(p.2, q.2), lengths.2, widened.2),
            ),
    {
        Self::new(
            Range(p.0.min(q.0), p.0.max(q.0)),
            Range(p.1.min(q.1), p.1.max(q.1)),
            Range(p.2.min(q.2), p.2.max(q.2)),
            lengths,
            widened,
        )
    }

    /// The box that holds nothing, from which the box around a list of
    /// boxes is begun.
    pub(crate) fn empty() -> (bounds: Self)
        ensures
            bounds == Self::spec_empty(),
    {
        let none = Range::union_empty();
        Self { x: none, y: none, z: none }
    }

    /// The least box that holds both boxes: on each axis the lesser lower end
    /// and the greater upper end.
    pub fn union(&self, other: &Self) -> (bounds: Self)
        ensures
            bounds == self.spec_union(other),
            bounds.extents() == (
                self.extents().0.spec_union(other.extents().0),
                self.extents().1.spec_union(other.extents().1),
                self.extents().2.spec_union(other.extents().2),
            ),
    {
        Self { x: self.x.union(other.x), y: self.y.union(other.y), z: self.z.union(other.z) }
    }

    /// The three ranges of the box, x first.
    pub fn axes(&self) -> (axes: [Range; 3])
        ensures
            axes[0] == self.extents().0,
            axes[1] == self.extents().1,
            axes[2] == self.extents().2,
    {
        [self.x, self.y, self.z]
    }

    /// Which of three lengths is the greatest: 0 for the first, 1 for the
    /// second, 2 for the third. Of equal lengths the later one is chosen:
    /// the third where it is below neither of the others, else the second
    /// where it is not below the first, else the first.
    pub open spec fn spec_longest_axis(width: Scalar, height: Scalar, depth: Scalar) -> usize {
        if !depth.spec_lt(width) && !depth.spec_lt(height) {
            2
        } else if !height.spec_lt(width) {
            1
        } else {
            0
        }
    }

    /// Which of three lengths is the greatest: 0 for the first, 1 for the
    /// second, 2 for the third. Of equal lengths the later one is chosen.
    pub fn longest_axis(width: Scalar, height: Scalar, depth: Scalar) -> (axis: usize)
        ensures
            axis == Self::spec_longest_axis(width, height, depth),
            axis <= 2,
    {
        if !depth.lt(width) && !depth.lt(height) {
            2
        } else if !height.lt(width) {
            1
        } else {
            0
        }
    }

    /// The axis chosen is a longest one, and no later axis is as long: of
    /// three lengths that are numbers, none is above the chosen one, and
    /// every later one is below it.
    pub proof fn lemma_longest_axis(width: Scalar, height: Scalar, depth: Scalar)
        requires
            !width.nan(),
            !height.nan(),
            !depth.nan(),
        ensures
            ({
                let axis = Self::spec_longest_axis(width, height, depth);
                let longest = if axis == 0 {
                    width
                } else if axis == 1 {
                    height
                } else {
                    depth
                };
                &&& width.spec_le(longest) && height.spec_le(longest) && depth.spec_le(longest)
                &&& axis < 1 ==> height.spec_lt(longest)
                &&& axis < 2 ==> depth.spec_lt(longest)
            }),
    {
    }

    /// The parameters between which a ray lies inside the slab of one axis,
    /// given the parameters at which it crosses the slab's two planes, in
    /// either order.
    pub open spec fn slab(crossing: (Scalar, Scalar)) -> Range {
        if crossing.1.spec_lt(crossing.0) {
            Range(crossing.1, crossing.0)
        } else {
            Range(crossing.0, crossing.1)
        }
    }

    /// The slab test: the part of `range` in which a ray lies inside all
    /// three slabs, or `None` where it leaves one before it enters another.
    pub open spec fn spec_check_intersection(crossings: [(Scalar, Scalar); 3], range: Range) -> Option<
        Range,
    > {
        match range.spec_intersect(Self::slab(crossings[0])) {
            None => None,
            Some(first) => match first.spec_intersect(Self::slab(crossings[1])) {
                None => None,
                Some(second) => second.spec_intersect(Self::slab(crossings[2])),
            },
        }
    }

    /// The slab test finds exactly the parameters at which the ray is inside
    /// the box: a parameter lies in the result where it lies in the range and
    /// in all three slabs, and there is no result where no parameter does.
    pub proof fn lemma_slab_test_holds(crossings: [(Scalar, Scalar); 3], range: Range, t: Scalar)
        requires
            range.ends_are_numbers(),
            Self::slab(crossings[0]).ends_are_numbers(),
            Self::slab(crossings[1]).ends_are_numbers(),
            Self::slab(crossings[2]).ends_are_numbers(),
        ensures
            match Self::spec_check_intersection(crossings, range) {
                Some(inside) => inside.spec_contains(t) == (range.spec_contains(t) && Self::slab(
                    crossings[0],
                ).spec_contains(t) && Self::slab(crossings[1]).spec_contains(t) && Self::slab(
                    crossings[2],
                ).spec_contains(t)),
                None => !(range.spec_contains(t) && Self::slab(crossings[0]).spec_contains(t)
                    && Self::slab(crossings[1]).spec_contains(t) && Self::slab(
                    crossings[2],
                ).spec_contains(t)),
            },
    {
        Range::lemma_intersect_contains(range, Self::slab(crossings[0]), t);
        match range.spec_intersect(Self::slab(crossings[0])) {
            None => {},
            Some(first) => {
                Range::lemma_intersect_contains(first, Self::slab(crossings[1]), t);
                match first.spec_intersect(Self::slab(crossings[1])) {
                    None => {},
                    Some(second) => {
                        Range::lemma_intersect_contains(second, Self::slab(crossings[2]), t);
                    },
                }
            },
        }
    }

    /// Checks whether a ray meets the box inside `range`, and returns the
    /// part of the range in which it is inside. For each axis `crossings`
    /// holds the two parameters at which the ray crosses the planes of the
    /// box: the lower and the upper end of the box on that axis, less the
    /// ray's origin, over the ray's direction there. A direction of zero
    /// gives infinite parameters, which never make the test fail.
    pub fn check_intersection(crossings: [(Scalar, Scalar); 3], range: Range) -> (r: Option<Range>)
        ensures
            r == Self::spec_check_intersection(crossings, range),
    {
        match Self::through_slab(range, crossings[0]) {
            None => None,
            Some(first) => match Self::through_slab(first, crossings[1]) {
                None => None,
                Some(second) => Self::through_slab(second, crossings[2]),
            },
        }
    }

    /// The part of `range` in which a ray lies inside the slab of one axis.
    fn through_slab(range: Range, crossing: (Scalar, Scalar)) -> (r: Option<Range>)
        ensures
            r == range.spec_intersect(Self::slab(crossing)),
    {
        let (mut t0, mut t1) = crossing;
        if t1.lt(t0) {
            let swap = t0;
            t0 = t1;
            t1 = swap;
        }
        range.intersect(Range(t0, t1))
    }

    /// Compares the lower ends of two boxes on the given axis, in the total
    /// order of the patterns.
    pub fn compare_axis(&self, other: &Self, axis: usize) -> (o: Ordering)
        requires
            axis <= 2,
        ensures
            (o == Ordering::Less) == (self.extent(axis).0.total_rank() < other.extent(axis).0.total_rank()),
            (o == Ordering::Equal) == (self.extent(axis).0.total_rank() == other.extent(axis).0.total_rank()),
            (o == Ordering::Greater) == (self.extent(axis).0.total_rank() > other.extent(axis).0.total_rank()),
    {
        let (axis_a, axis_b) = if axis == 0 {
            (self.x, other.x)
        } else if axis == 1 {
            (self.y, other.y)
        } else {
            (self.z, other.z)
        };
        let a: i64 = axis_a.0.total_key();
        let b: i64 = axis_b.0.total_key();
        if a < b {
            Ordering::Less
        } else if a == b {
            Ordering::Equal
        } else {
            Ordering::Greater
        }
    }

    /// The key by which `compare_axis` orders: the lower end of the box on
    /// the given axis, in the total order of the patterns.
    pub fn axis_key(&self, axis: usize) -> (key: i64)
        requires
            axis <= 2,
        ensures
            key == self.extent(axis).0.total_rank(),
    {
        if axis == 0 {
            self.x.0.total_key()
        } else if axis == 1 {
            self.y.0.total_key()
        } else {
            self.z.0.total_key()
        }
    }

    /// A point that lies in either of two boxes lies in their union.
    pub proof fn lemma_union_holds(a: BoundingBox, b: BoundingBox, x: Scalar, y: Scalar, z: Scalar)
        requires
            a.holds_point(x, y, z) || b.holds_point(x, y, z),
        ensures
            a.spec_union(&b).holds_point(x, y, z),
    {
    }

    /// The union is the least such box: a box that reaches as far as both on
    /// every axis reaches as far as their union.
    pub proof fn lemma_union_least(a: BoundingBox, b: BoundingBox, c: BoundingBox, axis: usize)
        requires
            axis <= 2,
            a.ends_are_numbers(),
            b.ends_are_numbers(),
            c.extent(axis).0.spec_le(a.extent(axis).0) && a.extent(axis).1.spec_le(
                c.extent(axis).1,
            ),
            c.extent(axis).0.spec_le(b.extent(axis).0) && b.extent(axis).1.spec_le(
                c.extent(axis).1,
            ),
        ensures
            c.extent(axis).0.spec_le(a.spec_union(&b).extent(axis).0),
            a.spec_union(&b).extent(axis).1.spec_le(c.extent(axis).1),
    {
    }
}

} // verus!

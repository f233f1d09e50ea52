use vstd::prelude::*;
use crate::scalar::Scalar;

verus! {

/// Width and height of an image or of a tile, in pixels.
#[derive(Debug, Clone, Copy, PartialEq, Eq, Structural)]
pub struct Dimensions(pub usize, pub usize);

/// Upper left corner of a tile inside the image: column, then row.
#[derive(Debug, Clone, Copy, PartialEq, Eq, Structural)]
pub struct TileCorner(pub usize, pub usize);

impl Default for TileCorner {
    fn default() -> (corner: Self)
        ensures
            corner == TileCorner(0, 0),
    {
        TileCorner(0, 0)
    }
}

/// A closed range of numbers: both ends belong to it. A range whose lower end
/// lies above its upper end holds nothing.
#[derive(Debug, Clone, Copy, PartialEq, Eq, Structural)]
pub struct Range(pub Scalar, pub Scalar);

impl Range {
    /// Whether `t` lies in the range. What is not a number lies in no range.
    pub open spec fn spec_contains(&self, t: Scalar) -> bool {
        self.0.spec_le(t) && t.spec_le(self.1)
    }

    /// The range from the lesser lower end to the greater upper end.
    pub open spec fn spec_union(&self, other: Range) -> Range {
        Range(self.0.spec_min(other.0), self.1.spec_max(other.1))
    }

    /// What two ranges share, or `None` where they share nothing.
    pub open spec fn spec_intersect(&self, other: Range) -> Option<Range> {
        let a = self.0.spec_max(other.0);
        let b = self.1.spec_min(other.1);
        if b.spec_lt(a) {
            None
        } else {
            Some(Range(a, b))
        }
    }

    /// Neither end is not a number.
    pub open spec fn ends_are_numbers(&self) -> bool {
        !self.0.nan() && !self.1.nan()
    }

    /// The reversed range from positive to negative infinity, which holds
    /// nothing and changes no range it is united with.
    pub fn union_empty() -> (r: Self)
        ensures
            r == Range(Scalar::spec_infinity(), Scalar::spec_neg_infinity()),
            forall|t: Scalar| !r.spec_contains(t),
    {
        Range(Scalar::infinity(), Scalar::neg_infinity())
    }

    /// Returns what the two ranges share, and `None` if they are disjoint.
    pub fn intersect(&self, other: Range) -> (r: Option<Self>)
        ensures
            r == self.spec_intersect(other),
    {
        let a = self.0.max(other.0);
        let b = self.1.min(other.1);

        if b.lt(a) {
            None
        } else {
            Some(Range(a, b))
        }
    }

    /// The least range that holds both.
    pub fn union(&self, other: Range) -> (r: Self)
        ensures
            r == self.spec_union(other),
    {
        let a = self.0.min(other.0);
        let b = self.1.max(other.1);

        Range(a, b)
    }

    /// Whether `t` lies between the two ends, the ends included.
    pub fn contains(&self, t: Scalar) -> (r: bool)
        ensures
            r == self.spec_contains(t),
    {
        let Range(min, max) = *self;
        t.ge(min) && t.le(max)
    }

    /// Whether `t` lies below the lower or above the upper end. For a `t`
    /// that is not a number this is false, as `contains` is.
    pub fn not_contains(&self, t: Scalar) -> (r: bool)
        ensures
            r == (t.spec_lt(self.0) || self.1.spec_lt(t)),
            self.ends_are_numbers() && !t.nan() ==> r == !self.spec_contains(t),
    {
        let Range(min, max) = *self;
        t.lt(min) || t.gt(max)
    }

    /// A number that lies in either of two ranges lies in their union.
    pub proof fn lemma_union_contains(a: Range, b: Range, t: Scalar)
        requires
            a.spec_contains(t) || b.spec_contains(t),
        ensures
            a.spec_union(b).spec_contains(t),
    {
    }

    /// The union is the least such range: a range that reaches as far as both
    /// reaches as far as their union.
    pub proof fn lemma_union_least(a: Range, b: Range, c: Range)
        requires
            a.ends_are_numbers(),
            b.ends_are_numbers(),
            c.0.spec_le(a.0) && a.1.spec_le(c.1),
            c.0.spec_le(b.0) && b.1.spec_le(c.1),
        ensures
            c.0.spec_le(a.spec_union(b).0),
            a.spec_union(b).1.spec_le(c.1),
    {
    }

    /// A number lies in the intersection exactly when it lies in both ranges.
    pub proof fn lemma_intersect_contains(a: Range, b: Range, t: Scalar)
        requires
            a.ends_are_numbers(),
            b.ends_are_numbers(),
        ensures
            match a.spec_intersect(b) {
                Some(r) => r.spec_contains(t) == (a.spec_contains(t) && b.spec_contains(t)),
                None => !(a.spec_contains(t) && b.spec_contains(t)),
            },
    {
    }
}

} // verus!

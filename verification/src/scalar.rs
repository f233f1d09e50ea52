use vstd::prelude::*;

verus! {

/// The sign bit of a single-precision pattern.
pub const SIGN_BIT: u32 = 0x8000_0000;

/// The pattern of positive infinity; every greater magnitude is not a number.
pub const INFINITY_BITS: u32 = 0x7f80_0000;

/// The weight of the lowest bit of the exponent in a pattern.
pub const EXPONENT_UNIT: u32 = 0x0080_0000;

/// By how much the fraction of a number between 1 and 256 is divided to
/// give its whole part, for each exponent from 127, which is that of 1, to
/// 134, which is that of 128.
pub open spec fn whole_divisor(exponent: int) -> int {
    if exponent == 127 {
        0x0080_0000
    } else if exponent == 128 {
        0x0040_0000
    } else if exponent == 129 {
        0x0020_0000
    } else if exponent == 130 {
        0x0010_0000
    } else if exponent == 131 {
        0x0008_0000
    } else if exponent == 132 {
        0x0004_0000
    } else if exponent == 133 {
        0x0002_0000
    } else {
        0x0001_0000
    }
}

/// A single-precision number held by its bit pattern. The library compares,
/// selects and negates such numbers, all of which the pattern decides
/// exactly; it never adds or multiplies them.
#[derive(Debug, Clone, Copy, PartialEq, Eq, Structural)]
pub struct Scalar {
    pub bits: u32,
}

impl Scalar {
    /// The pattern without its sign bit.
    pub open spec fn magnitude(self) -> int {
        if self.bits >= SIGN_BIT {
            self.bits - SIGN_BIT
        } else {
            self.bits as int
        }
    }

    /// Whether the sign bit is set.
    pub open spec fn negative(self) -> bool {
        self.bits >= SIGN_BIT
    }

    /// Whether the pattern is not a number.
    pub open spec fn nan(self) -> bool {
        self.magnitude() > INFINITY_BITS
    }

    /// An integer that orders the numbers as their values do: for `a`, `b`
    /// that are numbers, `a < b` as numbers exactly when `a.rank() < b.rank()`.
    /// Both zeros have rank 0.
    pub open spec fn rank(self) -> int {
        if self.negative() {
            -self.magnitude()
        } else {
            self.magnitude()
        }
    }

    /// An integer that orders all patterns as the total order of the
    /// standard does: negative zero below positive zero, negative patterns
    /// that are not numbers below everything, positive ones above.
    pub open spec fn total_rank(self) -> int {
        if self.negative() {
            -self.magnitude() - 1
        } else {
            self.magnitude()
        }
    }

    /// `a < b` as numbers: false when either is not a number.
    pub open spec fn spec_lt(self, other: Scalar) -> bool {
        !self.nan() && !other.nan() && self.rank() < other.rank()
    }

    /// `a <= b` as numbers: false when either is not a number.
    pub open spec fn spec_le(self, other: Scalar) -> bool {
        !self.nan() && !other.nan() && self.rank() <= other.rank()
    }

    /// The lesser of two numbers; where one is not a number, the other.
    pub open spec fn spec_min(self, other: Scalar) -> Scalar {
        if self.nan() {
            other
        } else if other.nan() {
            self
        } else if other.rank() < self.rank() {
            other
        } else {
            self
        }
    }

    /// The greater of two numbers; where one is not a number, the other.
    pub open spec fn spec_max(self, other: Scalar) -> Scalar {
        if self.nan() {
            other
        } else if other.nan() {
            self
        } else if other.rank() > self.rank() {
            other
        } else {
            self
        }
    }

    /// `a == b` as numbers: the zeros are equal, and what is not a number
    /// equals nothing.
    pub open spec fn spec_same(self, other: Scalar) -> bool {
        !self.nan() && !other.nan() && self.rank() == other.rank()
    }

    /// The pattern with the sign bit turned.
    pub open spec fn spec_neg(self) -> Scalar {
        if self.bits >= SIGN_BIT {
            Scalar { bits: (self.bits - SIGN_BIT) as u32 }
        } else {
            Scalar { bits: (self.bits + SIGN_BIT) as u32 }
        }
    }

    /// The pattern with the sign bit cleared.
    pub open spec fn spec_abs(self) -> Scalar {
        Scalar { bits: self.magnitude() as u32 }
    }

    /// The number cut off to a whole number and held to the range of a
    /// byte: 0 for what is below 1, negative or not a number, 255 for what
    /// is 255 or above, and else the whole part of the number.
    pub open spec fn spec_to_byte(self) -> u8 {
        let exponent = self.magnitude() / (EXPONENT_UNIT as int);
        let fraction = self.magnitude() % (EXPONENT_UNIT as int);
        if self.nan() || self.negative() || exponent < 127 {
            0
        } else if exponent >= 135 {
            255
        } else {
            ((EXPONENT_UNIT + fraction) / whole_divisor(exponent)) as u8
        }
    }

    /// Positive zero.
    pub open spec fn spec_zero() -> Scalar {
        Scalar { bits: 0 }
    }

    /// The number one.
    pub open spec fn spec_one() -> Scalar {
        Scalar { bits: 0x3f80_0000 }
    }

    /// Positive infinity.
    pub open spec fn spec_infinity() -> Scalar {
        Scalar { bits: INFINITY_BITS }
    }

    /// Negative infinity.
    pub open spec fn spec_neg_infinity() -> Scalar {
        Scalar { bits: 0xff80_0000 }
    }

    /// The number with the given bit pattern.
    pub fn from_bits(bits: u32) -> (s: Scalar)
        ensures
            s.bits == bits,
    {
        Scalar { bits }
    }

    /// The bit pattern of the number.
    pub fn to_bits(self) -> (bits: u32)
        ensures
            bits == self.bits,
    {
        self.bits
    }

    /// Positive infinity.
    pub fn infinity() -> (s: Scalar)
        ensures
            s == Self::spec_infinity(),
            !s.nan(),
    {
        Scalar { bits: INFINITY_BITS }
    }

    /// Negative infinity.
    pub fn neg_infinity() -> (s: Scalar)
        ensures
            s == Self::spec_neg_infinity(),
            !s.nan(),
    {
        Scalar { bits: 0xff80_0000 }
    }

    /// Positive zero.
    pub fn zero() -> (s: Scalar)
        ensures
            s == Self::spec_zero(),
            s.rank() == 0,
            !s.nan(),
    {
        Scalar { bits: 0 }
    }

    /// The number one.
    pub fn one() -> (s: Scalar)
        ensures
            s == Self::spec_one(),
            !s.nan(),
    {
        Scalar { bits: 0x3f80_0000 }
    }

    fn magnitude_bits(self) -> (m: u32)
        ensures
            m == self.magnitude(),
    {
        if self.bits >= SIGN_BIT {
            self.bits - SIGN_BIT
        } else {
            self.bits
        }
    }

    /// Whether the pattern is not a number.
    pub fn is_nan(self) -> (r: bool)
        ensures
            r == self.nan(),
    {
        self.magnitude_bits() > INFINITY_BITS
    }

    fn rank_value(self) -> (r: i64)
        ensures
            r == self.rank(),
    {
        let m: u32 = self.magnitude_bits();
        if self.bits >= SIGN_BIT {
            0 - (m as i64)
        } else {
            m as i64
        }
    }

    /// The key by which the total order compares: see `total_rank`.
    pub fn total_key(self) -> (r: i64)
        ensures
            r == self.total_rank(),
    {
        let m: u32 = self.magnitude_bits();
        if self.bits >= SIGN_BIT {
            0 - (m as i64) - 1
        } else {
            m as i64
        }
    }

    /// `self < other` as numbers.
    pub fn lt(self, other: Scalar) -> (r: bool)
        ensures
            r == self.spec_lt(other),
    {
        !self.is_nan() && !other.is_nan() && self.rank_value() < other.rank_value()
    }

    /// `self <= other` as numbers.
    pub fn le(self, other: Scalar) -> (r: bool)
        ensures
            r == self.spec_le(other),
    {
        !self.is_nan() && !other.is_nan() && self.rank_value() <= other.rank_value()
    }

    /// `self > other` as numbers.
    pub fn gt(self, other: Scalar) -> (r: bool)
        ensures
            r == other.spec_lt(self),
    {
        other.lt(self)
    }

    /// `self >= other` as numbers.
    pub fn ge(self, other: Scalar) -> (r: bool)
        ensures
            r == other.spec_le(self),
    {
        other.le(self)
    }

    /// `self == other` as numbers: the zeros are equal, and what is not a
    /// number equals nothing.
    pub fn same_value(self, other: Scalar) -> (r: bool)
        ensures
            r == self.spec_same(other),
    {
        !self.is_nan() && !other.is_nan() && self.rank_value() == other.rank_value()
    }

    /// The lesser of the two; where one is not a number, the other. Of two
    /// zeros it returns `self`.
    pub fn min(self, other: Scalar) -> (r: Scalar)
        ensures
            r == self.spec_min(other),
    {
        if self.is_nan() {
            other
        } else if other.is_nan() {
            self
        } else if other.rank_value() < self.rank_value() {
            other
        } else {
            self
        }
    }

    /// The greater of the two; where one is not a number, the other. Of two
    /// zeros it returns `self`.
    pub fn max(self, other: Scalar) -> (r: Scalar)
        ensures
            r == self.spec_max(other),
    {
        if self.is_nan() {
            other
        } else if other.is_nan() {
            self
        } else if other.rank_value() > self.rank_value() {
            other
        } else {
            self
        }
    }

    /// The number without its sign.
    pub fn abs(self) -> (r: Scalar)
        ensures
            r == self.spec_abs(),
            r.nan() == self.nan(),
            !r.negative(),
            r.magnitude() == self.magnitude(),
    {
        Scalar { bits: self.magnitude_bits() }
    }

    /// Cuts the number off to a whole number and holds it to the range of
    /// a byte.
    pub fn to_byte(self) -> (byte: u8)
        ensures
            byte == self.spec_to_byte(),
    {
        if self.is_nan() || self.bits >= SIGN_BIT {
            return 0;
        }
        let exponent: u32 = self.bits / EXPONENT_UNIT;
        let fraction: u32 = self.bits % EXPONENT_UNIT;
        if exponent < 127 {
            return 0;
        }
        if exponent >= 135 {
            return 255;
        }
        let divisor: u32 = if exponent == 127 {
            0x0080_0000
        } else if exponent == 128 {
            0x0040_0000
        } else if exponent == 129 {
            0x0020_0000
        } else if exponent == 130 {
            0x0010_0000
        } else if exponent == 131 {
            0x0008_0000
        } else if exponent == 132 {
            0x0004_0000
        } else if exponent == 133 {
            0x0002_0000
        } else {
            0x0001_0000
        };
        let whole: u32 = (EXPONENT_UNIT + fraction) / divisor;
        whole as u8
    }

    /// The greater of two numbers has the greater byte: cutting off never
    /// turns the order of two numbers round.
    pub proof fn lemma_to_byte_rises(a: Scalar, b: Scalar)
        requires
            !a.nan(),
            !b.nan(),
            a.rank() <= b.rank(),
        ensures
            a.spec_to_byte() <= b.spec_to_byte(),
    {
        let unit = EXPONENT_UNIT as int;
        let ea = a.magnitude() / unit;
        let eb = b.magnitude() / unit;
        let fa = a.magnitude() % unit;
        let fb = b.magnitude() % unit;
        if a.negative() || ea < 127 {
            assert(a.spec_to_byte() == 0);
        } else if b.negative() {
            assert(a.magnitude() == 0);
        } else if eb >= 135 {
            assert(b.spec_to_byte() == 255);
        } else {
            assert(a.magnitude() <= b.magnitude());
            assert(ea <= eb);
            Self::lemma_whole_bounds(ea, fa);
            Self::lemma_whole_bounds(eb, fb);
            let wa = (unit + fa) / whole_divisor(ea);
            let wb = (unit + fb) / whole_divisor(eb);
            assert(0 <= wa < 256 && 0 <= wb < 256);
            assert(a.spec_to_byte() == wa);
            assert(b.spec_to_byte() == wb);
            if ea == eb {
                assert(fa <= fb);
                Self::lemma_whole_rises(ea, fa, fb);
            } else {
                assert(2 * (0x0080_0000int / whole_divisor(ea)) <= 0x0080_0000int / whole_divisor(
                    eb,
                ));
            }
        }
    }

    /// With the same exponent, the greater fraction has the greater whole
    /// part.
    pub proof fn lemma_whole_rises(exponent: int, less: int, more: int)
        requires
            127 <= exponent < 135,
            0 <= less <= more < EXPONENT_UNIT,
        ensures
            (EXPONENT_UNIT + less) / whole_divisor(exponent) <= (EXPONENT_UNIT + more)
                / whole_divisor(exponent),
    {
        if exponent == 127 {
        } else if exponent == 128 {
        } else if exponent == 129 {
        } else if exponent == 130 {
        } else if exponent == 131 {
        } else if exponent == 132 {
        } else if exponent == 133 {
        } else {
        }
    }

    /// The whole part of a number with exponent `exponent` lies between two
    /// neighbouring powers of two, and grows with the fraction.
    pub proof fn lemma_whole_bounds(exponent: int, fraction: int)
        requires
            127 <= exponent < 135,
            0 <= fraction < EXPONENT_UNIT,
        ensures
            0x0080_0000int / whole_divisor(exponent) <= (EXPONENT_UNIT + fraction) / whole_divisor(
                exponent,
            ) < 2 * (0x0080_0000int / whole_divisor(exponent)),
            0x0080_0000int / whole_divisor(exponent) == (if exponent == 127 {
                1int
            } else if exponent == 128 {
                2int
            } else if exponent == 129 {
                4int
            } else if exponent == 130 {
                8int
            } else if exponent == 131 {
                16int
            } else if exponent == 132 {
                32int
            } else if exponent == 133 {
                64int
            } else {
                128int
            }),
    {
    }

    /// The number with the opposite sign.
    pub fn neg(self) -> (r: Scalar)
        ensures
            r == self.spec_neg(),
            r.magnitude() == self.magnitude(),
            r.negative() == !self.negative(),
            r.nan() == self.nan(),
            r.rank() == -self.rank(),
    {
        if self.bits >= SIGN_BIT {
            Scalar { bits: self.bits - SIGN_BIT }
        } else {
            Scalar { bits: self.bits + SIGN_BIT }
        }
    }
}

} // verus!

//! IEEE 754 numbers held by their bit patterns.
//!
//! A `Single` is a binary32 value and a `Double` a binary64 value. The library
//! never does arithmetic on them: it classifies them, orders them and converts
//! exactly between the two formats, all of which is integer work on the
//! pattern. Rounding arithmetic is left to the caller's hardware.
use vstd::arithmetic::power2::{
    lemma2_to64, lemma2_to64_rest, lemma_pow2_strictly_increases, lemma_pow2_unfold, pow2,
};
use vstd::prelude::*;

verus! {

/// Pattern of the sign bit of a binary32 value.
pub const SINGLE_SIGN: u32 = 0x8000_0000;

/// Pattern of positive infinity in binary32. Every magnitude above it is a NaN.
pub const SINGLE_INFINITY: u32 = 0x7f80_0000;

/// Pattern of the binary32 number one.
pub const SINGLE_ONE: u32 = 0x3f80_0000;

/// Pattern of the sign bit of a binary64 value.
pub const DOUBLE_SIGN: u64 = 0x8000_0000_0000_0000;

/// Pattern of positive infinity in binary64. Every magnitude above it is a NaN.
pub const DOUBLE_INFINITY: u64 = 0x7ff0_0000_0000_0000;

/// A binary32 value, held by its bit pattern.
#[derive(Clone, Copy, Debug, PartialEq, Eq, Structural)]
pub struct Single {
    pub bits: u32,
}

/// A binary64 value, held by its bit pattern.
#[derive(Clone, Copy, Debug, PartialEq, Eq, Structural)]
pub struct Double {
    pub bits: u64,
}

impl Single {
    /// The pattern without its sign bit.
    pub open spec fn magnitude(self) -> nat {
        if self.bits >= SINGLE_SIGN {
            (self.bits - SINGLE_SIGN) as nat
        } else {
            self.bits as nat
        }
    }

    /// The sign bit is set. This holds of negative zero too.
    pub open spec fn sign(self) -> bool {
        self.bits >= SINGLE_SIGN
    }

    /// The pattern is no number: its magnitude lies above that of infinity.
    pub open spec fn spec_is_nan(self) -> bool {
        self.magnitude() > SINGLE_INFINITY
    }

    /// Neither a NaN nor an infinity.
    pub open spec fn is_finite(self) -> bool {
        self.magnitude() < SINGLE_INFINITY
    }

    /// Position of the value on the number line of its format: the magnitude,
    /// counted downwards for a set sign bit. Among values that are no NaN a
    /// smaller ordinal is a smaller number, and both zeros share ordinal 0.
    pub open spec fn ordinal(self) -> int {
        if self.sign() {
            -(self.magnitude() as int)
        } else {
            self.magnitude() as int
        }
    }

    /// The IEEE 754 comparison `self < other`: false as soon as one side is a NaN.
    pub open spec fn spec_lt(self, other: Single) -> bool {
        !self.spec_is_nan() && !other.spec_is_nan() && self.ordinal() < other.ordinal()
    }

    /// The IEEE 754 comparison `self >= other`: false as soon as one side is a NaN.
    pub open spec fn spec_ge(self, other: Single) -> bool {
        !self.spec_is_nan() && !other.spec_is_nan() && self.ordinal() >= other.ordinal()
    }

    /// The pattern is no number.
    #[verifier::when_used_as_spec(spec_is_nan)]
    pub fn is_nan(self) -> (r: bool)
        ensures
            r == self.spec_is_nan(),
    {
        if self.bits >= SINGLE_SIGN {
            self.bits - SINGLE_SIGN > SINGLE_INFINITY
        } else {
            self.bits > SINGLE_INFINITY
        }
    }

    fn key(self) -> (k: i64)
        ensures
            k == self.ordinal(),
    {
        if self.bits >= SINGLE_SIGN {
            -((self.bits - SINGLE_SIGN) as i64)
        } else {
            self.bits as i64
        }
    }

    /// The comparison `self < other` of IEEE 754.
    #[verifier::when_used_as_spec(spec_lt)]
    pub fn lt(self, other: Single) -> (r: bool)
        ensures
            r == self.spec_lt(other),
    {
        !self.is_nan() && !other.is_nan() && self.key() < other.key()
    }

    /// The comparison `self >= other` of IEEE 754.
    #[verifier::when_used_as_spec(spec_ge)]
    pub fn ge(self, other: Single) -> (r: bool)
        ensures
            r == self.spec_ge(other),
    {
        !self.is_nan() && !other.is_nan() && self.key() >= other.key()
    }
}

impl Double {
    /// The pattern without its sign bit.
    pub open spec fn magnitude(self) -> nat {
        if self.bits >= DOUBLE_SIGN {
            (self.bits - DOUBLE_SIGN) as nat
        } else {
            self.bits as nat
        }
    }

    /// The sign bit is set. This holds of negative zero too.
    pub open spec fn sign(self) -> bool {
        self.bits >= DOUBLE_SIGN
    }

    /// The pattern is no number: its magnitude lies above that of infinity.
    pub open spec fn spec_is_nan(self) -> bool {
        self.magnitude() > DOUBLE_INFINITY
    }

    /// Neither a NaN nor an infinity.
    pub open spec fn is_finite(self) -> bool {
        self.magnitude() < DOUBLE_INFINITY
    }

    /// Positive or negative zero.
    pub open spec fn spec_is_zero(self) -> bool {
        self.magnitude() == 0
    }

    /// Position of the value on the number line of its format: the magnitude,
    /// counted downwards for a set sign bit. Among values that are no NaN a
    /// smaller ordinal is a smaller number, and both zeros share ordinal 0.
    pub open spec fn ordinal(self) -> int {
        if self.sign() {
            -(self.magnitude() as int)
        } else {
            self.magnitude() as int
        }
    }

    /// The IEEE 754 comparison `self < other`: false as soon as one side is a NaN.
    pub open spec fn spec_lt(self, other: Double) -> bool {
        !self.spec_is_nan() && !other.spec_is_nan() && self.ordinal() < other.ordinal()
    }

    /// Place of the value in a ranking: its ordinal, and for a NaN a place
    /// below negative infinity. This orders every pattern, so a ranking by it
    /// is determined even where a NaN occurs.
    pub open spec fn rank(self) -> int {
        if self.spec_is_nan() {
            -(DOUBLE_INFINITY as int) - 1
        } else {
            self.ordinal()
        }
    }

    /// The pattern is no number.
    #[verifier::when_used_as_spec(spec_is_nan)]
    pub fn is_nan(self) -> (r: bool)
        ensures
            r == self.spec_is_nan(),
    {
        if self.bits >= DOUBLE_SIGN {
            self.bits - DOUBLE_SIGN > DOUBLE_INFINITY
        } else {
            self.bits > DOUBLE_INFINITY
        }
    }

    /// Positive or negative zero: what the comparison `self == 0.0` tests.
    #[verifier::when_used_as_spec(spec_is_zero)]
    pub fn is_zero(self) -> (r: bool)
        ensures
            r == self.spec_is_zero(),
    {
        self.bits == 0 || self.bits == DOUBLE_SIGN
    }

    /// The rank as a machine integer.
    pub fn rank_key(self) -> (k: i64)
        ensures
            k == self.rank(),
    {
        if self.is_nan() {
            -0x7ff0_0000_0000_0001
        } else if self.bits >= DOUBLE_SIGN {
            -((self.bits - DOUBLE_SIGN) as i64)
        } else {
            self.bits as i64
        }
    }

    /// The comparison `self < other` of IEEE 754.
    #[verifier::when_used_as_spec(spec_lt)]
    pub fn lt(self, other: Double) -> (r: bool)
        ensures
            r == self.spec_lt(other),
    {
        !self.is_nan() && !other.is_nan() && self.rank_key() < other.rank_key()
    }
}

/// Two to the power 52: the weight of the implicit leading bit of a binary64
/// significand, and the weight of the exponent field within the pattern.
pub const DOUBLE_HIDDEN: u64 = 0x10_0000_0000_0000;

/// Two to the power 23: the same for binary32.
pub const SINGLE_HIDDEN: u32 = 0x80_0000;

/// Counts from here on are no longer all held exactly by a binary64 value.
pub const COUNT_LIMIT: u64 = 0x20_0000_0000_0000;

/// The pair `(m, e)` rewritten, without changing `m * 2^e`, so that `m` has
/// its leading bit at position 52. Zero is left as it is.
pub open spec fn normalized(m: nat, e: int) -> (nat, int)
    decreases
        (if m >= DOUBLE_HIDDEN {
            0
        } else {
            DOUBLE_HIDDEN - m
        }),
{
    if m == 0 || m >= DOUBLE_HIDDEN {
        (m, e)
    } else {
        normalized(2 * m, e - 1)
    }
}

impl Double {
    /// The integer that the fraction field and the implicit bit spell out.
    pub open spec fn significand(self) -> nat {
        if self.magnitude() < DOUBLE_HIDDEN {
            self.magnitude()
        } else {
            DOUBLE_HIDDEN as nat + self.magnitude() % (DOUBLE_HIDDEN as nat)
        }
    }

    /// The power of two that scales the significand: a finite value is
    /// `significand * 2^exponent`, negated where the sign bit is set.
    pub open spec fn exponent(self) -> int {
        if self.magnitude() < DOUBLE_HIDDEN {
            -1074
        } else {
            self.magnitude() / (DOUBLE_HIDDEN as nat) - 1075
        }
    }

    /// The size of a finite value, counted in units of 2^-1074, the least
    /// positive binary64 number. Every finite value is a whole number of them.
    pub open spec fn weight(self) -> nat {
        self.significand() * pow2((self.exponent() + 1074) as nat)
    }

    /// The finite value itself in those units: the weight, negated where the
    /// sign bit is set.
    pub open spec fn scaled(self) -> int {
        if self.sign() {
            -(self.weight() as int)
        } else {
            self.weight() as int
        }
    }

    /// The pattern of the number `m * 2^e`, for `m` below 2^53 and `e` from
    /// -1022 to 900, where that number is a normal binary64 value or zero.
    pub open spec fn of_scaled(m: nat, e: int) -> Double {
        if m == 0 {
            Double { bits: 0 }
        } else {
            let (significand, exponent) = normalized(m, e);
            Double { bits: ((exponent + 1075) * DOUBLE_HIDDEN + significand - DOUBLE_HIDDEN) as u64 }
        }
    }

    /// The pattern of the whole number `n`, for `n` below 2^53.
    pub open spec fn of_count(n: nat) -> Double {
        Double::of_scaled(n, 0)
    }

    fn from_scaled(m: u64, e: i64) -> (r: Double)
        requires
            m < COUNT_LIMIT,
            -1022 <= e <= 900,
        ensures
            r == Double::of_scaled(m as nat, e as int),
            r.bits < DOUBLE_INFINITY,
    {
        if m == 0 {
            return Double { bits: 0 };
        }
        let mut significand: u64 = m;
        let mut exponent: i64 = e;
        proof {
            lemma2_to64();
        }
        while significand < DOUBLE_HIDDEN
            invariant
                0 < significand < COUNT_LIMIT,
                exponent <= e,
                -1022 <= e <= 900,
                significand >= pow2((e - exponent) as nat),
                normalized(significand as nat, exponent as int) == normalized(m as nat, e as int),
            decreases
                (if significand >= DOUBLE_HIDDEN {
                    0
                } else {
                    DOUBLE_HIDDEN - significand
                }),
        {
            proof {
                let k = (e - exponent) as nat;
                lemma2_to64_rest();
                if k > 52 {
                    lemma_pow2_strictly_increases(52, k);
                }
                assert(k < 52);
                lemma_pow2_unfold(k + 1);
            }
            significand = 2 * significand;
            exponent = exponent - 1;
        }
        proof {
            let k = (e - exponent) as nat;
            lemma2_to64_rest();
            if k > 53 {
                lemma_pow2_strictly_increases(53, k);
            }
            assert(k <= 52);
        }
        Double { bits: ((exponent + 1075) as u64) * DOUBLE_HIDDEN + (significand - DOUBLE_HIDDEN) }
    }

    /// The binary64 value of a count.
    pub fn from_count(n: u64) -> (r: Double)
        requires
            n < COUNT_LIMIT,
        ensures
            r == Double::of_count(n as nat),
    {
        Double::from_scaled(n, 0)
    }
}

impl Single {
    /// The integer that the fraction field and the implicit bit spell out.
    pub open spec fn significand(self) -> nat {
        if self.magnitude() < SINGLE_HIDDEN {
            self.magnitude()
        } else {
            SINGLE_HIDDEN as nat + self.magnitude() % (SINGLE_HIDDEN as nat)
        }
    }

    /// The power of two that scales the significand: a finite value is
    /// `significand * 2^exponent`, negated where the sign bit is set.
    pub open spec fn exponent(self) -> int {
        if self.magnitude() < SINGLE_HIDDEN {
            -149
        } else {
            self.magnitude() / (SINGLE_HIDDEN as nat) - 150
        }
    }

    /// The size of a finite value, counted in units of 2^-149, the least
    /// positive binary32 number. Every finite value is a whole number of them.
    pub open spec fn weight(self) -> nat {
        self.significand() * pow2((self.exponent() + 149) as nat)
    }

    /// The finite value itself in those units: the weight, negated where the
    /// sign bit is set.
    pub open spec fn scaled(self) -> int {
        if self.sign() {
            -(self.weight() as int)
        } else {
            self.weight() as int
        }
    }

    /// The binary64 value equal to this one: the same sign, and for a finite
    /// value the same number, for an infinity the infinity. What it is for a
    /// NaN is left open.
    pub open spec fn widened(self) -> Double {
        let magnitude = if self.is_finite() {
            Double::of_scaled(self.significand(), self.exponent()).bits
        } else {
            DOUBLE_INFINITY
        };
        if self.sign() {
            Double { bits: (magnitude + DOUBLE_SIGN) as u64 }
        } else {
            Double { bits: magnitude }
        }
    }

    /// Converts to binary64 without rounding, as every binary32 number is a
    /// binary64 number too.
    pub fn widen(self) -> (r: Double)
        requires
            !self.spec_is_nan(),
        ensures
            r == self.widened(),
    {
        let negative = self.bits >= SINGLE_SIGN;
        let magnitude: u32 = if negative {
            self.bits - SINGLE_SIGN
        } else {
            self.bits
        };
        let body: u64 = if magnitude == SINGLE_INFINITY {
            DOUBLE_INFINITY
        } else if magnitude < SINGLE_HIDDEN {
            Double::from_scaled(magnitude as u64, -149).bits
        } else {
            let field: u32 = magnitude / SINGLE_HIDDEN;
            let fraction: u32 = magnitude % SINGLE_HIDDEN;
            Double::from_scaled((SINGLE_HIDDEN + fraction) as u64, field as i64 - 150).bits
        };
        if negative {
            Double { bits: body + DOUBLE_SIGN }
        } else {
            Double { bits: body }
        }
    }
}

} // verus!

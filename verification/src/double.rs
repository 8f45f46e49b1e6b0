//! IEEE 754 binary64 numbers, read from their bit patterns.
//!
//! A pattern has a sign bit, an 11-bit exponent field and a 52-bit fraction
//! field. Every pattern whose exponent field is below 2047 stands for a real
//! number; that number is an integer multiple of 2^-1074, the smallest positive
//! one. The model below counts those multiples (`units`) and divides by
//! 2^1074 to obtain the number itself (`value`).

use crate::reals::lemma_real_product;
use vstd::arithmetic::power2::{
    lemma2_to64, lemma2_to64_rest, lemma_pow2_adds, lemma_pow2_pos, lemma_pow2_strictly_increases,
    lemma_pow2_unfold, pow2,
};
use vstd::prelude::*;

verus! {

/// The sign bit of a pattern.
pub const SIGN_BIT: u64 = 0x8000_0000_0000_0000;

/// Every bit of a pattern but the sign bit.
pub const MAGNITUDE_MASK: u64 = 0x7FFF_FFFF_FFFF_FFFF;

/// The magnitude bits of positive infinity: the least magnitude that is not a
/// real number.
pub const INFINITY_MAGNITUDE: u64 = 0x7FF0_0000_0000_0000;

/// The magnitude bits of the number one.
pub const ONE_MAGNITUDE: u64 = 0x3FF0_0000_0000_0000;

/// How many multiples of 2^-1074 make up the number one.
pub open spec fn units_per_one() -> nat {
    pow2(1074)
}

/// A binary64 number, held as its 64-bit pattern.
#[derive(Clone, Copy, Debug)]
pub struct Double {
    pub bits: u64,
}

impl Double {
    /// Whether the sign bit is set.
    pub open spec fn sign(self) -> bool {
        self.bits >= 0x8000_0000_0000_0000
    }

    /// The pattern without its sign bit.
    pub open spec fn magnitude_bits(self) -> nat {
        (self.bits % 0x8000_0000_0000_0000) as nat
    }

    /// The 11-bit exponent field.
    pub open spec fn exponent_field(self) -> nat {
        self.magnitude_bits() / 0x10_0000_0000_0000
    }

    /// The 52-bit fraction field.
    pub open spec fn fraction_field(self) -> nat {
        self.magnitude_bits() % 0x10_0000_0000_0000
    }

    /// Whether the pattern stands for a real number: neither an infinity nor
    /// a NaN.
    pub open spec fn is_real_spec(self) -> bool {
        self.exponent_field() < 0x7FF
    }

    /// Whether the pattern is an infinity.
    pub open spec fn is_infinite_spec(self) -> bool {
        self.magnitude_bits() == 0x7FF0_0000_0000_0000
    }

    /// Whether the pattern stands for a normal number: a real number with
    /// the implicit leading bit, not below 2^-1022 in size.
    pub open spec fn is_normal(self) -> bool {
        1 <= self.exponent_field() < 0x7FF
    }

    /// The absolute value in multiples of 2^-1074. With exponent field 0 the
    /// number is subnormal and the fraction field counts the multiples; above
    /// that the significand has an implicit leading bit and each step of the
    /// exponent field doubles it.
    pub open spec fn units(self) -> nat {
        if self.exponent_field() == 0 {
            self.fraction_field()
        } else {
            (0x10_0000_0000_0000 + self.fraction_field()) * pow2(
                (self.exponent_field() - 1) as nat,
            )
        }
    }

    /// The significand: the fraction field, with the implicit leading bit
    /// unless the number is subnormal.
    pub open spec fn significand(self) -> nat {
        if self.exponent_field() == 0 {
            self.fraction_field()
        } else {
            0x10_0000_0000_0000 + self.fraction_field()
        }
    }

    /// The power of two by which the significand counts units.
    pub open spec fn step(self) -> nat {
        if self.exponent_field() == 0 {
            0
        } else {
            (self.exponent_field() - 1) as nat
        }
    }

    /// The pattern with the other sign bit.
    pub open spec fn negated(self) -> Double {
        Double {
            bits: if self.sign() {
                (self.bits - 0x8000_0000_0000_0000) as u64
            } else {
                (self.bits + 0x8000_0000_0000_0000) as u64
            },
        }
    }

    /// The pattern with the sign bit clear.
    pub open spec fn absolute(self) -> Double {
        Double { bits: self.magnitude_bits() as u64 }
    }

    /// The value in multiples of 2^-1074, with its sign.
    pub open spec fn signed_units(self) -> int {
        if self.sign() {
            -(self.units() as int)
        } else {
            self.units() as int
        }
    }

    /// The real number that a pattern with `is_real` stands for.
    pub open spec fn value(self) -> real {
        (self.signed_units() as real) / (units_per_one() as real)
    }

    /// The number of a bit pattern.
    pub open spec fn from_bits_spec(bits: u64) -> Double {
        Double { bits }
    }

    /// The pattern of the number zero with a clear sign bit.
    pub open spec fn zero_spec() -> Double {
        Double { bits: 0 }
    }

    /// The pattern of zero with the sign bit `negative`.
    pub open spec fn signed_zero_spec(negative: bool) -> Double {
        Double {
            bits: if negative {
                0x8000_0000_0000_0000
            } else {
                0
            },
        }
    }

    /// The pattern of the infinity with the sign bit `negative`.
    pub open spec fn infinity_spec(negative: bool) -> Double {
        Double {
            bits: if negative {
                0xFFF0_0000_0000_0000
            } else {
                0x7FF0_0000_0000_0000
            },
        }
    }

    /// The pattern of the number one.
    pub open spec fn one_spec() -> Double {
        Double { bits: 0x3FF0_0000_0000_0000 }
    }

    /// The pattern of the number minus one.
    pub open spec fn minus_one_spec() -> Double {
        Double { bits: 0xBFF0_0000_0000_0000 }
    }

    /// Wraps a bit pattern.
    #[verifier::when_used_as_spec(from_bits_spec)]
    pub fn from_bits(bits: u64) -> (number: Double)
        ensures
            number == Double::from_bits_spec(bits),
    {
        Double { bits }
    }

    /// The bit pattern.
    pub fn to_bits(self) -> (bits: u64)
        ensures
            bits == self.bits,
    {
        self.bits
    }

    /// The number zero, with a clear sign bit.
    #[verifier::when_used_as_spec(zero_spec)]
    pub fn zero() -> (number: Double)
        ensures
            number == Double::zero_spec(),
            number.is_real(),
            number.value() == 0real,
    {
        let number = Double { bits: 0 };
        proof {
            lemma_value_by_units(number);
        }
        number
    }

    /// Zero with the sign bit `negative`.
    #[verifier::when_used_as_spec(signed_zero_spec)]
    pub fn signed_zero(negative: bool) -> (number: Double)
        ensures
            number == Double::signed_zero_spec(negative),
            number.sign() == negative,
            number.is_real(),
            number.value() == 0real,
    {
        let number = Double {
            bits: if negative {
                SIGN_BIT
            } else {
                0
            },
        };
        proof {
            lemma_value_by_units(number);
        }
        number
    }

    /// The infinity with the sign bit `negative`.
    #[verifier::when_used_as_spec(infinity_spec)]
    pub fn infinity(negative: bool) -> (number: Double)
        ensures
            number == Double::infinity_spec(negative),
            number.sign() == negative,
            number.is_infinite(),
    {
        Double {
            bits: if negative {
                0xFFF0_0000_0000_0000
            } else {
                INFINITY_MAGNITUDE
            },
        }
    }

    /// The number one.
    #[verifier::when_used_as_spec(one_spec)]
    pub fn one() -> (number: Double)
        ensures
            number == Double::one_spec(),
            number.is_real(),
            number.value() == 1real,
    {
        let number = Double { bits: ONE_MAGNITUDE };
        proof {
            lemma2_to64_rest();
            assert(number.exponent_field() == 1023);
            assert(number.fraction_field() == 0);
            assert(1 * pow2(52) == 0x10_0000_0000_0000);
            lemma_whole_value(number, 1);
        }
        number
    }

    /// The number minus one.
    #[verifier::when_used_as_spec(minus_one_spec)]
    pub fn minus_one() -> (number: Double)
        ensures
            number == Double::minus_one_spec(),
            number.is_real(),
            number.value() == -1real,
    {
        let number = Double { bits: SIGN_BIT | ONE_MAGNITUDE };
        proof {
            assert(SIGN_BIT | ONE_MAGNITUDE == 0xBFF0_0000_0000_0000u64) by (bit_vector);
            assert(number.exponent_field() == 1023);
            assert(number.fraction_field() == 0);
            lemma2_to64_rest();
            lemma_pow2_adds(52, 1022);
            assert(number.units() == units_per_one());
            lemma_value_by_units(number);
        }
        number
    }

    /// The significand and the step of a pattern.
    pub fn split(self) -> (parts: (u64, u64))
        ensures
            parts.0 == self.significand(),
            parts.1 == self.step(),
            parts.0 < 0x20_0000_0000_0000,
            parts.1 <= 2046,
            self.units() == self.significand() * pow2(self.step()),
    {
        let magnitude = self.magnitude();
        let exponent_field = magnitude / 0x10_0000_0000_0000;
        let fraction_field = magnitude % 0x10_0000_0000_0000;
        proof {
            lemma_units_split(self);
        }
        if exponent_field == 0 {
            (fraction_field, 0)
        } else {
            (0x10_0000_0000_0000 + fraction_field, exponent_field - 1)
        }
    }

    /// The number with the other sign: for a real number, its negative.
    pub fn negate(self) -> (number: Double)
        ensures
            number == self.negated(),
            number.sign() != self.sign(),
            number.magnitude_bits() == self.magnitude_bits(),
            number.value() == -self.value(),
    {
        let bits = self.bits;
        proof {
            lemma_negated_value(self);
        }
        assert(bits ^ SIGN_BIT == (if bits >= 0x8000_0000_0000_0000u64 {
            (bits - 0x8000_0000_0000_0000u64) as u64
        } else {
            (bits + 0x8000_0000_0000_0000u64) as u64
        })) by (bit_vector);
        Double { bits: bits ^ SIGN_BIT }
    }

    /// The number with the sign bit clear: for a real number, its absolute
    /// value.
    pub fn abs(self) -> (number: Double)
        ensures
            number == self.absolute(),
            !number.sign(),
            number.magnitude_bits() == self.magnitude_bits(),
            number.value() == (if self.value() < 0real {
                -self.value()
            } else {
                self.value()
            }),
    {
        proof {
            lemma_absolute_value(self);
        }
        Double { bits: self.magnitude() }
    }

    /// Whether the sign bit is set.
    pub fn sign_is_set(self) -> (set: bool)
        ensures
            set == self.sign(),
    {
        let bits = self.bits;
        assert((bits & SIGN_BIT != 0) == (bits >= 0x8000_0000_0000_0000u64)) by (bit_vector);
        bits & SIGN_BIT != 0
    }

    fn magnitude(self) -> (magnitude: u64)
        ensures
            magnitude == self.magnitude_bits(),
    {
        let bits = self.bits;
        assert(bits & MAGNITUDE_MASK == bits % 0x8000_0000_0000_0000u64) by (bit_vector);
        bits & MAGNITUDE_MASK
    }

    /// Whether this is a real number: neither an infinity nor a NaN.
    #[verifier::when_used_as_spec(is_real_spec)]
    pub fn is_real(self) -> (answer: bool)
        ensures
            answer == self.is_real_spec(),
    {
        self.magnitude() < INFINITY_MAGNITUDE
    }

    /// Whether this is an infinity.
    #[verifier::when_used_as_spec(is_infinite_spec)]
    pub fn is_infinite(self) -> (answer: bool)
        ensures
            answer == self.is_infinite_spec(),
    {
        self.magnitude() == INFINITY_MAGNITUDE
    }

    /// Whether this is the real number zero. Both patterns of zero count,
    /// whatever the sign bit.
    pub fn is_zero(self) -> (zero: bool)
        ensures
            zero == (self.is_real() && self.value() == 0real),
    {
        proof {
            lemma_units_zero(self);
            lemma_value_by_units(self);
        }
        self.magnitude() == 0
    }

    /// Whether both are real numbers and this one is the smaller.
    pub fn less_than(self, other: Double) -> (less: bool)
        ensures
            less == (self.is_real() && other.is_real() && self.value() < other.value()),
    {
        let own = self.magnitude();
        let others = other.magnitude();
        if own >= INFINITY_MAGNITUDE || others >= INFINITY_MAGNITUDE {
            return false;
        }
        proof {
            lemma_units_order(self, other);
            lemma_units_zero(self);
            lemma_units_zero(other);
            lemma_value_order(self, other);
        }
        if self.sign_is_set() {
            if other.sign_is_set() {
                others < own
            } else {
                own != 0 || others != 0
            }
        } else {
            !other.sign_is_set() && own < others
        }
    }

    /// Whether both are real numbers and their sum is zero.
    pub fn cancels(self, other: Double) -> (cancel: bool)
        ensures
            cancel == (self.is_real() && other.is_real() && self.value() + other.value()
                == 0real),
    {
        let own = self.magnitude();
        let others = other.magnitude();
        if own >= INFINITY_MAGNITUDE || others >= INFINITY_MAGNITUDE {
            return false;
        }
        proof {
            lemma_units_order(self, other);
            lemma_units_zero(self);
            lemma_units_zero(other);
            lemma_value_sum(self, other);
        }
        own == others && (own == 0 || self.sign_is_set() != other.sign_is_set())
    }
}

/// Among all patterns, a larger magnitude counts more units, and equal
/// magnitudes count the same.
pub proof fn lemma_units_order(a: Double, b: Double)
    ensures
        a.magnitude_bits() < b.magnitude_bits() <==> a.units() < b.units(),
        a.magnitude_bits() == b.magnitude_bits() <==> a.units() == b.units(),
{
    if a.magnitude_bits() < b.magnitude_bits() {
        lemma_units_increase(a, b);
    } else if b.magnitude_bits() < a.magnitude_bits() {
        lemma_units_increase(b, a);
    }
}

proof fn lemma_units_increase(a: Double, b: Double)
    requires
        a.magnitude_bits() < b.magnitude_bits(),
    ensures
        a.units() < b.units(),
{
    let ea = a.exponent_field();
    let eb = b.exponent_field();
    let fa = a.fraction_field();
    let fb = b.fraction_field();
    let hidden: nat = 0x10_0000_0000_0000;
    assert(ea <= eb);
    if ea == eb {
        assert(fa < fb);
        if ea != 0 {
            let scale = pow2((ea - 1) as nat);
            lemma_pow2_pos((ea - 1) as nat);
            assert((hidden + fa) * scale < (hidden + fb) * scale) by (nonlinear_arith)
                requires
                    fa < fb,
                    scale > 0,
            ;
        }
    } else {
        let high = pow2((eb - 1) as nat);
        lemma_pow2_pos((eb - 1) as nat);
        assert(hidden * high <= (hidden + fb) * high) by (nonlinear_arith)
            requires
                high > 0,
        ;
        if ea == 0 {
            assert(hidden * 1 <= hidden * high) by (nonlinear_arith)
                requires
                    high >= 1,
            ;
        } else {
            let low = pow2((ea - 1) as nat);
            lemma_pow2_pos((ea - 1) as nat);
            lemma_pow2_unfold(ea);
            if ea < eb - 1 {
                lemma_pow2_strictly_increases(ea, (eb - 1) as nat);
            }
            assert(2 * low <= high);
            assert((hidden + fa) * low < hidden * high) by (nonlinear_arith)
                requires
                    fa < hidden,
                    low > 0,
                    2 * low <= high,
            ;
        }
    }
}

/// The units of a pattern are its significand times two to its step.
pub proof fn lemma_units_split(a: Double)
    ensures
        a.units() == a.significand() * pow2(a.step()),
{
    lemma2_to64();
    let count = a.significand();
    let unit = pow2(a.step());
    if a.exponent_field() == 0 {
        assert(count * unit == count) by (nonlinear_arith)
            requires
                unit == 1,
        ;
    }
}

/// A pattern with a clear sign bit whose significand is a whole number times
/// the power of two that its step lacks to 1074 has that whole number as its
/// value.
pub proof fn lemma_whole_value(a: Double, whole: nat)
    requires
        !a.sign(),
        a.step() <= 1074,
        a.significand() == whole * pow2((1074 - a.step()) as nat),
    ensures
        a.value() == whole as real,
{
    let rest = pow2((1074 - a.step()) as nat);
    let scale = pow2(a.step());
    let one = units_per_one();
    lemma_units_split(a);
    lemma_pow2_adds((1074 - a.step()) as nat, a.step());
    lemma_pow2_pos(1074);
    assert(a.units() == whole * one) by (nonlinear_arith)
        requires
            a.units() == a.significand() * scale,
            a.significand() == whole * rest,
            one == rest * scale,
    ;
    let count = whole as real;
    let size = one as real;
    lemma_real_product(whole as int, one as int);
    assert((count * size) / size == count) by (nonlinear_arith)
        requires
            size > 0real,
    ;
}

/// The pattern with the other sign bit has the negative value.
pub proof fn lemma_negated_value(a: Double)
    ensures
        a.negated().value() == -a.value(),
{
    let one = units_per_one() as real;
    let count = a.signed_units() as real;
    lemma_pow2_pos(1074);
    lemma_units_order(a, a.negated());
    assert(a.negated().signed_units() == -a.signed_units());
    assert((-count) / one == -(count / one)) by (nonlinear_arith)
        requires
            one > 0real,
    ;
}

/// The pattern with the sign bit clear has the absolute value.
pub proof fn lemma_absolute_value(a: Double)
    ensures
        a.absolute().value() == (if a.value() < 0real {
            -a.value()
        } else {
            a.value()
        }),
{
    lemma_units_order(a, a.absolute());
    lemma_value_by_units(a);
    if a.sign() {
        lemma_negated_value(a);
        assert(a.absolute() == a.negated());
    } else {
        assert(a.absolute() == a);
    }
}

/// Only the two patterns of zero count no units.
pub proof fn lemma_units_zero(a: Double)
    ensures
        a.units() == 0 <==> a.magnitude_bits() == 0,
{
    let zero = Double { bits: 0 };
    assert(zero.units() == 0);
    lemma_units_order(zero, a);
}

/// The sign of a value and whether it is zero can be read from its units.
pub proof fn lemma_value_by_units(a: Double)
    ensures
        a.value() == 0real <==> a.signed_units() == 0,
        a.value() > 0real <==> a.signed_units() > 0,
        a.value() < 0real <==> a.signed_units() < 0,
        a.signed_units() == -(units_per_one() as int) <==> a.value() == -1real,
{
    let one = units_per_one() as int;
    let count = a.signed_units();
    lemma_pow2_pos(1074);
    assert({
        &&& ((count as real) / (one as real) == 0real <==> count == 0)
        &&& ((count as real) / (one as real) > 0real <==> count > 0)
        &&& ((count as real) / (one as real) < 0real <==> count < 0)
        &&& ((count as real) / (one as real) == -1real <==> count == -one)
    }) by (nonlinear_arith)
        requires
            one > 0,
    ;
}

/// Values are ordered as their signed units are.
pub proof fn lemma_value_order(a: Double, b: Double)
    ensures
        a.value() < b.value() <==> a.signed_units() < b.signed_units(),
        a.value() == b.value() <==> a.signed_units() == b.signed_units(),
{
    let one = units_per_one() as int;
    let x = a.signed_units();
    let y = b.signed_units();
    lemma_pow2_pos(1074);
    assert({
        &&& ((x as real) / (one as real) < (y as real) / (one as real) <==> x < y)
        &&& ((x as real) / (one as real) == (y as real) / (one as real) <==> x == y)
    }) by (nonlinear_arith)
        requires
            one > 0,
    ;
}

/// Two values sum to zero exactly when their signed units do.
pub proof fn lemma_value_sum(a: Double, b: Double)
    ensures
        a.value() + b.value() == 0real <==> a.signed_units() + b.signed_units() == 0,
{
    let one = units_per_one() as int;
    let x = a.signed_units();
    let y = b.signed_units();
    lemma_pow2_pos(1074);
    assert((x as real) / (one as real) + (y as real) / (one as real) == 0real <==> x + y == 0)
        by (nonlinear_arith)
        requires
            one > 0,
    ;
}

/// The pattern made of an exponent step and a significand counts the
/// significand times two to the step. A significand of 2^53 carries into the
/// next step; one below 2^52 belongs to step 0.
pub proof fn lemma_units_of_pattern(significand: nat, step: nat)
    requires
        significand <= 0x20_0000_0000_0000,
        step == 0 || significand >= 0x10_0000_0000_0000,
        step * 0x10_0000_0000_0000 + significand <= 0x7FF0_0000_0000_0000,
    ensures
        (Double { bits: (step * 0x10_0000_0000_0000 + significand) as u64 }).units() == significand
            * pow2(step),
{
    let number = Double { bits: (step * 0x10_0000_0000_0000 + significand) as u64 };
    let scale = pow2(step);
    lemma2_to64();
    if significand < 0x10_0000_0000_0000 {
        assert(number.exponent_field() == 0);
        assert(number.units() == significand);
        assert(significand * scale == significand) by (nonlinear_arith)
            requires
                scale == 1,
        ;
    } else if significand < 0x20_0000_0000_0000 {
        assert(number.exponent_field() == step + 1);
        assert(number.fraction_field() == significand - 0x10_0000_0000_0000);
    } else {
        assert(number.exponent_field() == step + 2);
        assert(number.fraction_field() == 0);
        lemma_pow2_unfold(step + 1);
        let next = pow2(step + 1);
        assert(0x10_0000_0000_0000 * next == significand * scale) by (nonlinear_arith)
            requires
                next == 2 * scale,
                significand == 0x20_0000_0000_0000,
        ;
    }
}

/// A value times 2^1074 is the signed count of units.
pub proof fn lemma_value_in_units(number: Double)
    ensures
        number.value() * (units_per_one() as real) == number.signed_units() as real,
{
    let one = units_per_one() as real;
    let count = number.signed_units() as real;
    lemma_pow2_pos(1074);
    assert((count / one) * one == count) by (nonlinear_arith)
        requires
            one > 0real,
    ;
}

} // verus!

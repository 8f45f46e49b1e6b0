//! Rounding a real number to the nearest binary64 number.
//!
//! The candidates for a rounding are the real binary64 numbers and the two
//! infinities. By the formula of `Double::value` an infinity reads as the
//! first power of two beyond the range, 2^1024 with its sign, and that is the
//! number it stands in for here: a target rounds to an infinity when it lies
//! nearer to that power than to the largest real binary64 number.

use crate::double::{
    lemma_units_of_pattern, lemma_units_order, lemma_value_in_units, lemma_value_order,
    units_per_one, Double,
};
use crate::error::FinanceError;
use crate::reals::{
    lemma_distance_scales, lemma_distance_times, lemma_product_sign, lemma_real_product,
};
use vstd::arithmetic::power2::{lemma_pow2_pos, lemma_pow2_unfold, pow2};
use vstd::prelude::*;

verus! {

/// Whether a pattern is a real number or an infinity.
pub open spec fn is_candidate(number: Double) -> bool {
    number.magnitude_bits() <= 0x7FF0_0000_0000_0000
}

/// How far two real numbers are apart.
pub open spec fn distance(x: real, y: real) -> real {
    if x >= y {
        x - y
    } else {
        y - x
    }
}

/// Whether no candidate lies nearer to `target` than `number` does, and, where
/// a candidate of another value lies as near, `number` is the one whose
/// pattern is even.
#[verifier::opaque]
pub open spec fn is_nearest(target: real, number: Double) -> bool {
    &&& is_candidate(number)
    &&& forall|other: Double| #[trigger]
        is_candidate(other) ==> distance(number.value(), target) <= distance(
            other.value(),
            target,
        )
    &&& forall|other: Double|
        #[trigger] is_candidate(other) && other.value() != number.value() && distance(
            other.value(),
            target,
        ) == distance(number.value(), target) ==> number.bits % 2 == 0
}

/// Whether `number` is the rounding of `target` that bears the sign bit
/// `negative`. The sign bit matters where the rounding is zero.
pub open spec fn rounds_to(target: real, negative: bool, number: Double) -> bool {
    is_nearest(target, number) && number.sign() == negative
}

/// The rounding of `target` to the nearest candidate, ties to the even
/// pattern, with the sign bit `negative`.
#[verifier::opaque]
pub open spec fn rounded(target: real, negative: bool) -> Double {
    choose|number: Double| rounds_to(target, negative, number)
}

/// Whether `target` has a rounding with the sign bit `negative`: whether
/// `rounded` names a number that rounds it.
pub open spec fn has_rounding(target: real, negative: bool) -> bool {
    rounds_to(target, negative, rounded(target, negative))
}

/// A rounding is a result if it is a real number; beyond the range there is
/// none.
pub open spec fn settle(number: Double) -> Result<Double, FinanceError> {
    if number.is_real() {
        Ok(number)
    } else {
        Err(FinanceError::InvalidDomain)
    }
}

/// Between two neighbouring magnitudes, the one on the target's side of
/// their midpoint is nearest among all magnitudes; at the midpoint, the even
/// one.
pub(crate) proof fn lemma_nearest_units(low: Double, high: Double, pick: Double, x: real)
    requires
        !low.sign(),
        !high.sign(),
        high.bits == low.bits + 1,
        is_candidate(high),
        low.units() as real <= x <= high.units() as real,
        pick == low || pick == high,
        x + x < (low.units() + high.units()) as real ==> pick == low,
        x + x > (low.units() + high.units()) as real ==> pick == high,
        x + x == (low.units() + high.units()) as real ==> pick.bits % 2 == 0,
    ensures
        forall|other: Double| #[trigger]
            is_candidate(other) ==> distance(pick.units() as real, x) <= distance(
                other.units() as real,
                x,
            ),
        forall|other: Double|
            #[trigger] is_candidate(other) && other.units() != pick.units() && distance(
                other.units() as real,
                x,
            ) == distance(pick.units() as real, x) ==> pick.bits % 2 == 0,
{
    lemma_units_order(low, high);
    assert forall|other: Double| #[trigger] is_candidate(other) implies distance(
        pick.units() as real,
        x,
    ) <= distance(other.units() as real, x) by {
        lemma_units_order(other, low);
        lemma_units_order(other, high);
    }
    assert forall|other: Double|
        #[trigger] is_candidate(other) && other.units() != pick.units() && distance(
            other.units() as real,
            x,
        ) == distance(pick.units() as real, x) implies pick.bits % 2 == 0 by {
        lemma_units_order(other, low);
        lemma_units_order(other, high);
    }
}

/// What is nearest among the magnitudes is nearest among the candidates once
/// target and pick bear the same sign.
pub(crate) proof fn lemma_nearest_value(pick: Double, negative: bool, x: real, target: real)
    requires
        is_candidate(pick),
        pick.sign() == negative,
        x >= 0real,
        target * (units_per_one() as real) == (if negative {
            -x
        } else {
            x
        }),
        forall|other: Double| #[trigger]
            is_candidate(other) ==> distance(pick.units() as real, x) <= distance(
                other.units() as real,
                x,
            ),
        forall|other: Double|
            #[trigger] is_candidate(other) && other.units() != pick.units() && distance(
                other.units() as real,
                x,
            ) == distance(pick.units() as real, x) ==> pick.bits % 2 == 0,
    ensures
        rounds_to(target, negative, pick),
{
    reveal(is_nearest);
    let one = units_per_one() as real;
    lemma_pow2_pos(1074);
    lemma_value_in_units(pick);
    let zero = Double { bits: 0 };
    assert(is_candidate(zero));
    assert(zero.units() == 0);
    assert forall|other: Double| #[trigger] is_candidate(other) implies distance(
        pick.value(),
        target,
    ) <= distance(other.value(), target) by {
        lemma_value_in_units(other);
        lemma_distance_scales(pick.value(), other.value(), target, one);
    }
    assert forall|other: Double|
        #[trigger] is_candidate(other) && other.value() != pick.value() && distance(
            other.value(),
            target,
        ) == distance(pick.value(), target) implies pick.bits % 2 == 0 by {
        lemma_value_in_units(other);
        lemma_distance_scales(pick.value(), other.value(), target, one);
        assert(other.signed_units() != pick.signed_units()) by {
            assert(other.value() * one != pick.value() * one) by (nonlinear_arith)
                requires
                    other.value() != pick.value(),
                    one > 0real,
            ;
        }
    }
}

/// Beyond the largest candidate, that candidate is the nearest.
pub(crate) proof fn lemma_nearest_beyond(top: Double, x: real)
    requires
        top.bits == 0x7FF0_0000_0000_0000,
        x >= top.units() as real,
    ensures
        forall|other: Double| #[trigger]
            is_candidate(other) ==> distance(top.units() as real, x) <= distance(
                other.units() as real,
                x,
            ),
        forall|other: Double|
            #[trigger] is_candidate(other) && other.units() != top.units() && distance(
                other.units() as real,
                x,
            ) == distance(top.units() as real, x) ==> top.bits % 2 == 0,
{
    assert forall|other: Double| #[trigger] is_candidate(other) implies distance(
        top.units() as real,
        x,
    ) <= distance(other.units() as real, x) by {
        lemma_units_order(other, top);
    }
}

/// Of two roundings of one target that bear the same sign bit, neither has
/// the smaller magnitude: a candidate would lie between them, nearer to the
/// target than both.
proof fn lemma_no_smaller_rounding(target: real, negative: bool, a: Double, b: Double)
    requires
        rounds_to(target, negative, a),
        rounds_to(target, negative, b),
    ensures
        a.magnitude_bits() >= b.magnitude_bits(),
{
    reveal(is_nearest);
    assert(is_candidate(a) && is_candidate(b));
    if a.magnitude_bits() < b.magnitude_bits() {
        lemma_units_order(a, b);
        lemma_value_order(a, b);
        assert(a.value() != b.value());
        assert(distance(a.value(), target) == distance(b.value(), target));
        assert(a.bits % 2 == 0 && b.bits % 2 == 0);
        let between = Double { bits: (a.bits + 1) as u64 };
        assert(between.magnitude_bits() == a.magnitude_bits() + 1);
        assert(between.sign() == negative);
        assert(is_candidate(between));
        lemma_units_order(a, between);
        lemma_units_order(between, b);
        lemma_value_order(a, between);
        lemma_value_order(between, b);
        assert(distance(between.value(), target) < distance(a.value(), target));
    }
}

/// A target has one rounding for each sign bit.
pub proof fn lemma_rounding_is_unique(target: real, negative: bool, a: Double, b: Double)
    requires
        rounds_to(target, negative, a),
        rounds_to(target, negative, b),
    ensures
        a == b,
{
    reveal(is_nearest);
    assert(is_candidate(a) && is_candidate(b));
    lemma_no_smaller_rounding(target, negative, a, b);
    lemma_no_smaller_rounding(target, negative, b, a);
    assert(a.bits == b.bits);
}

/// A number that rounds a target is the rounding of that target.
pub proof fn lemma_rounded_is(target: real, negative: bool, number: Double)
    requires
        rounds_to(target, negative, number),
    ensures
        rounded(target, negative) == number,
        has_rounding(target, negative),
{
    reveal(rounded);
    lemma_rounding_is_unique(target, negative, rounded(target, negative), number);
}

/// A candidate is its own rounding: what can be had exactly is not changed.
pub proof fn lemma_exact_rounding(number: Double)
    requires
        is_candidate(number),
    ensures
        rounded(number.value(), number.sign()) == number,
{
    reveal(is_nearest);
    lemma_rounded_is(number.value(), number.sign(), number);
}

/// A rounding does not pass a candidate that its target does not pass.
pub proof fn lemma_rounding_stays_within(
    target: real,
    negative: bool,
    number: Double,
    bound: Double,
)
    requires
        rounds_to(target, negative, number),
        is_candidate(bound),
    ensures
        target <= bound.value() ==> number.value() <= bound.value(),
        target >= bound.value() ==> number.value() >= bound.value(),
{
    reveal(is_nearest);
}

/// Below a candidate that counts more units than `x`, a magnitude and the
/// next one have `x` between them.
proof fn lemma_bracket(x: real, above: Double) -> (low: Double)
    requires
        x >= 0real,
        !above.sign(),
        is_candidate(above),
        x < above.units() as real,
    ensures
        !low.sign(),
        low.bits < above.bits,
        low.units() as real <= x,
        x < (Double { bits: (low.bits + 1) as u64 }).units() as real,
    decreases above.bits,
{
    let zero = Double { bits: 0 };
    assert(zero.units() == 0);
    lemma_units_order(zero, above);
    let below = Double { bits: (above.bits - 1) as u64 };
    if below.units() as real <= x {
        below
    } else {
        lemma_bracket(x, below)
    }
}

/// Every real number has a rounding: for a number that is not zero with the
/// sign bit of its sign, for zero with either sign bit.
pub proof fn lemma_rounding_exists(target: real, negative: bool)
    requires
        target != 0real ==> negative == (target < 0real),
    ensures
        has_rounding(target, negative),
{
    let one = units_per_one() as real;
    lemma_pow2_pos(1074);
    let size = if negative {
        -target
    } else {
        target
    };
    let x = size * one;
    lemma_product_sign(size, one);
    assert(target * one == (if negative {
        -x
    } else {
        x
    })) by (nonlinear_arith)
        requires
            x == size * one,
            size == (if negative {
                -target
            } else {
                target
            }),
    ;
    let top = Double { bits: 0x7FF0_0000_0000_0000 };
    let sign: u64 = if negative {
        0x8000_0000_0000_0000
    } else {
        0
    };
    if x >= top.units() as real {
        let pick = Double { bits: (sign + top.bits) as u64 };
        lemma_nearest_beyond(top, x);
        lemma_units_order(pick, top);
        lemma_nearest_value(pick, negative, x, target);
        lemma_rounded_is(target, negative, pick);
    } else {
        let low = lemma_bracket(x, top);
        let high = Double { bits: (low.bits + 1) as u64 };
        let middle = (low.units() + high.units()) as real;
        let plain = if x + x < middle || (x + x == middle && low.bits % 2 == 0) {
            low
        } else {
            high
        };
        lemma_nearest_units(low, high, plain, x);
        let pick = Double { bits: (sign + plain.bits) as u64 };
        lemma_units_order(pick, plain);
        lemma_nearest_value(pick, negative, x, target);
        lemma_rounded_is(target, negative, pick);
    }
}

/// The magnitude of a normal number is made of its step and its
/// significand.
proof fn lemma_normal_pattern(number: Double)
    requires
        number.is_normal(),
    ensures
        number.magnitude_bits() == number.step() * 0x10_0000_0000_0000 + number.significand(),
        0x10_0000_0000_0000 <= number.significand() < 0x20_0000_0000_0000,
        number.step() <= 2045,
        number.units() == number.significand() * pow2(number.step()),
        number.units() >= 0x10_0000_0000_0000 * pow2(number.step()),
{
    let significand = number.significand();
    let scale = pow2(number.step());
    lemma_pow2_pos(number.step());
    assert(significand * scale >= 0x10_0000_0000_0000 * scale) by (nonlinear_arith)
        requires
            significand >= 0x10_0000_0000_0000,
            scale > 0,
    ;
}

/// The candidate next above a normal number in size lies one step of the
/// significand above it.
proof fn lemma_neighbour_above(number: Double) -> (above: Double)
    requires
        number.is_normal(),
    ensures
        is_candidate(above),
        above.sign() == number.sign(),
        above.units() == number.units() + pow2(number.step()),
{
    let significand = number.significand();
    let step = number.step();
    let scale = pow2(step);
    let above = Double { bits: (number.bits + 1) as u64 };
    let plain = Double { bits: (number.magnitude_bits() + 1) as u64 };
    lemma_normal_pattern(number);
    assert(above.units() == plain.units()) by {
        lemma_units_order(above, plain);
    }
    assert(plain.units() == (significand + 1) * scale) by {
        lemma_units_of_pattern(significand + 1, step);
    }
    assert((significand + 1) * scale == significand * scale + scale) by (nonlinear_arith);
    above
}

/// The candidate next below a normal number in size lies at most one step
/// of the significand below it.
proof fn lemma_neighbour_below(number: Double) -> (below: Double)
    requires
        number.is_normal(),
    ensures
        is_candidate(below),
        below.sign() == number.sign(),
        below.units() < number.units(),
        below.units() + pow2(number.step()) >= number.units(),
{
    let significand = number.significand();
    let step = number.step();
    let scale = pow2(step);
    let below = Double { bits: (number.bits - 1) as u64 };
    let plain = Double { bits: (number.magnitude_bits() - 1) as u64 };
    lemma_normal_pattern(number);
    lemma_pow2_pos(step);
    assert(below.units() == plain.units()) by {
        lemma_units_order(below, plain);
    }
    assert(below.units() < number.units()) by {
        lemma_units_order(below, number);
    }
    if significand > 0x10_0000_0000_0000 || step == 0 {
        assert(plain.units() == (significand - 1) * scale) by {
            lemma_units_of_pattern((significand - 1) as nat, step);
        }
        assert((significand - 1) * scale == significand * scale - scale) by (nonlinear_arith);
    } else {
        let lower = pow2((step - 1) as nat);
        lemma_pow2_unfold(step);
        lemma_pow2_pos((step - 1) as nat);
        assert(plain.units() == 0x1F_FFFF_FFFF_FFFF * lower) by {
            lemma_units_of_pattern(0x1F_FFFF_FFFF_FFFF, (step - 1) as nat);
        }
        assert(0x1F_FFFF_FFFF_FFFF * lower + scale >= significand * scale) by (nonlinear_arith)
            requires
                scale == 2 * lower,
                significand == 0x10_0000_0000_0000,
                lower > 0,
        ;
    }
    below
}

/// A rounding that is a normal number lies within half a step of its
/// significand of the target, which is within 2^-53 of its own size.
pub proof fn lemma_rounding_error(target: real, negative: bool, number: Double)
    requires
        rounds_to(target, negative, number),
        number.is_normal(),
    ensures
        distance(number.value(), target) * 9007199254740992real <= distance(
            number.value(),
            0real,
        ),
{
    reveal(is_nearest);
    let one = units_per_one() as real;
    lemma_pow2_pos(1074);
    let below = lemma_neighbour_below(number);
    let above = lemma_neighbour_above(number);
    lemma_normal_pattern(number);
    let step = pow2(number.step()) as real;
    let size = number.units() as real;
    let near = distance(number.value(), target);
    assert(is_candidate(below) && is_candidate(above));
    lemma_value_in_units(number);
    lemma_value_in_units(below);
    lemma_value_in_units(above);
    lemma_distance_scales(number.value(), below.value(), target, one);
    lemma_distance_scales(number.value(), above.value(), target, one);
    lemma_distance_scales(number.value(), number.value(), 0real, one);
    lemma_distance_times(number.value(), target, one);
    lemma_distance_times(number.value(), 0real, one);
    lemma_real_product(0x10_0000_0000_0000, pow2(number.step()) as int);
    let far = near * one;
    assert(far + far <= step);
    assert(far * 9007199254740992real <= size);
    assert((near * 9007199254740992real) * one == far * 9007199254740992real)
        by (nonlinear_arith)
        requires
            far == near * one,
    ;
    let whole = distance(number.value(), 0real);
    let error = near * 9007199254740992real;
    let gap = whole - error;
    assert(gap * one == whole * one - error * one) by (nonlinear_arith)
        requires
            gap == whole - error,
    ;
    lemma_product_sign(gap, one);
}

} // verus!

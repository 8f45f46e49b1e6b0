//! Facts about products of real numbers that the solver is told one at a
//! time.

use crate::rounding::distance;
use vstd::prelude::*;

verus! {

/// The sign of a product with a positive number is that of the other factor.
pub(crate) proof fn lemma_product_sign(a: real, b: real)
    by (nonlinear_arith)
    requires
        b > 0real,
    ensures
        a * b < 0real <==> a < 0real,
        a * b == 0real <==> a == 0real,
        a * b > 0real <==> a > 0real,
{
}

/// A difference times a number is the difference of the products.
pub(crate) proof fn lemma_difference_times(y: real, mark: real, unit: real, scale: real)
    by (nonlinear_arith)
    ensures
        (y - mark * unit) * scale == y * scale - mark * (unit * scale),
{
}

/// Where `x` and `y` are one number on two scales, they lie on the same side
/// of a mark that is put on both scales.
pub(crate) proof fn lemma_same_side(
    x: real,
    y: real,
    mark: real,
    x_unit: real,
    y_unit: real,
    up: real,
    down: real,
)
    requires
        up > 0real,
        down > 0real,
        y * down == x * up,
        x_unit * up == y_unit * down,
    ensures
        x < mark * x_unit <==> y < mark * y_unit,
        x == mark * x_unit <==> y == mark * y_unit,
{
    let dy = y - mark * y_unit;
    let dx = x - mark * x_unit;
    lemma_difference_times(y, mark, y_unit, down);
    lemma_difference_times(x, mark, x_unit, up);
    assert(dy * down == dx * up);
    lemma_product_sign(dy, down);
    lemma_product_sign(dx, up);
}

/// Distances between multiples of a positive number compare as the distances
/// between the multipliers do.
pub(crate) proof fn lemma_distance_scales(a: real, b: real, t: real, scale: real)
    requires
        scale > 0real,
    ensures
        distance(a, t) <= distance(b, t) <==> distance(a * scale, t * scale) <= distance(
            b * scale,
            t * scale,
        ),
        distance(a, t) == distance(b, t) <==> distance(a * scale, t * scale) == distance(
            b * scale,
            t * scale,
        ),
{
    assert(distance(a * scale, t * scale) == distance(a, t) * scale) by (nonlinear_arith)
        requires
            scale > 0real,
    ;
    assert(distance(b * scale, t * scale) == distance(b, t) * scale) by (nonlinear_arith)
        requires
            scale > 0real,
    ;
    let da = distance(a, t);
    let db = distance(b, t);
    assert((da <= db <==> da * scale <= db * scale) && (da == db <==> da * scale == db * scale))
        by (nonlinear_arith)
        requires
            scale > 0real,
    ;
}

/// Two products that are equal stay equal when the scale of both changes.
pub(crate) proof fn lemma_rescaled(
    units: real,
    x: real,
    one: real,
    grown: real,
    down: real,
    up: real,
)
    requires
        units * one == x * grown,
        grown * down == up * one,
        one > 0real,
    ensures
        units * down == x * up,
{
    assert((units * down) * one == (units * one) * down) by (nonlinear_arith);
    assert((x * grown) * down == x * (grown * down)) by (nonlinear_arith);
    assert(x * (up * one) == (x * up) * one) by (nonlinear_arith);
    let left = units * down;
    let right = x * up;
    assert((left - right) * one == left * one - right * one) by (nonlinear_arith);
    lemma_product_sign(left - right, one);
}

/// A common factor that is not zero can be taken out of an equation.
pub(crate) proof fn lemma_cancel(p: real, q: real, factor: real)
    requires
        p * factor == q * factor,
        factor != 0real,
    ensures
        p == q,
{
    assert((p - q) * factor == p * factor - q * factor) by (nonlinear_arith);
    assert((p - q) * factor == 0real && factor != 0real ==> p - q == 0real) by (nonlinear_arith);
}

/// The real number of a product of integers is the product of their real
/// numbers.
pub(crate) proof fn lemma_real_product(a: int, b: int)
    by (nonlinear_arith)
    ensures
        (a * b) as real == (a as real) * (b as real),
{
}

/// The distance between multiples of a positive number is that multiple of
/// the distance between the multipliers.
pub(crate) proof fn lemma_distance_times(a: real, t: real, scale: real)
    requires
        scale > 0real,
    ensures
        distance(a * scale, t * scale) == distance(a, t) * scale,
{
    assert(distance(a * scale, t * scale) == distance(a, t) * scale) by (nonlinear_arith)
        requires
            scale > 0real,
    ;
}

/// The sign of a product is made of the signs of its factors.
pub(crate) proof fn lemma_sign_of_product(a: real, b: real)
    by (nonlinear_arith)
    ensures
        a * b == 0real <==> a == 0real || b == 0real,
        a * b < 0real <==> (a < 0real && b > 0real) || (a > 0real && b < 0real),
{
}

/// The sign of a quotient is made of the signs of the two numbers.
pub(crate) proof fn lemma_sign_of_quotient(a: real, b: real)
    by (nonlinear_arith)
    requires
        b != 0real,
    ensures
        a / b == 0real <==> a == 0real,
        a / b < 0real <==> (a < 0real && b > 0real) || (a > 0real && b < 0real),
{
}

/// The size of a product is the product of the sizes.
pub(crate) proof fn lemma_size_of_product(a: real, b: real)
    by (nonlinear_arith)
    ensures
        distance(a * b, 0real) == distance(a, 0real) * distance(b, 0real),
{
}

/// Two steps that each stay within 2^-53 of their own size stay within one
/// part in 10^9 of where they started.
pub(crate) proof fn lemma_two_steps(start: real, middle: real, end: real)
    requires
        distance(middle, start) * 9007199254740992real <= distance(middle, 0real),
        distance(end, middle) * 9007199254740992real <= distance(end, 0real),
    ensures
        distance(end, start) * 1000000000real <= distance(start, 0real),
{
}

/// An error bound that holds of two numbers holds of their products with a
/// third number.
pub(crate) proof fn lemma_bound_times(near: real, far: real, factor: real)
    requires
        distance(near, far) * 9007199254740992real <= distance(near, 0real),
    ensures
        distance(near * factor, far * factor) * 9007199254740992real <= distance(
            near * factor,
            0real,
        ),
{
    let size = distance(factor, 0real);
    let error = distance(near, far) * 9007199254740992real;
    let whole = distance(near, 0real);
    assert(distance(near * factor, far * factor) == distance(near, far) * size)
        by (nonlinear_arith)
        requires
            size == distance(factor, 0real),
    ;
    lemma_size_of_product(near, factor);
    assert((distance(near, far) * size) * 9007199254740992real == error * size)
        by (nonlinear_arith)
        requires
            error == distance(near, far) * 9007199254740992real,
    ;
    assert(error * size <= whole * size) by (nonlinear_arith)
        requires
            error <= whole,
            size >= 0real,
    ;
}

/// An error bound that holds of the products of two numbers with a third
/// number that is not zero holds of the two numbers.
pub(crate) proof fn lemma_bound_over(near: real, far: real, factor: real)
    requires
        factor != 0real,
        distance(near * factor, far * factor) * 9007199254740992real <= distance(
            near * factor,
            0real,
        ),
    ensures
        distance(near, far) * 9007199254740992real <= distance(near, 0real),
{
    let size = distance(factor, 0real);
    let error = distance(near, far) * 9007199254740992real;
    let whole = distance(near, 0real);
    assert(distance(near * factor, far * factor) == distance(near, far) * size)
        by (nonlinear_arith)
        requires
            size == distance(factor, 0real),
    ;
    lemma_size_of_product(near, factor);
    assert((distance(near, far) * size) * 9007199254740992real == error * size)
        by (nonlinear_arith)
        requires
            error == distance(near, far) * 9007199254740992real,
    ;
    assert((whole - error) * size == whole * size - error * size) by (nonlinear_arith);
    lemma_product_sign(error - whole, size);
    assert((error - whole) * size == error * size - whole * size) by (nonlinear_arith);
}

} // verus!

//! The ways in which a formula refuses its inputs.

use vstd::prelude::*;

verus! {

/// Why a formula has no result for the inputs it was given.
#[derive(Clone, Copy, Debug, PartialEq, Eq, Structural)]
pub enum FinanceError {
    /// An input lies outside the formula's domain: it is not a real number,
    /// it makes a denominator zero, or it asks for the logarithm or root of
    /// a number that has none.
    ///
    /// A value that arises on the way is reported in the same way where it is
    /// no real number: a sum, a difference, a product or a quotient whose
    /// rounding lies beyond the range of the binary64 numbers, the result
    /// among them, and a division by a value that has become zero. One value
    /// on the way is exempt: the power `(1 + rate)^periods` by which present
    /// value, payment and net present value divide. Over very many periods it
    /// lies beyond the range; it then counts as an infinity, and what is
    /// divided by it is zero. A power that is not a number at all is
    /// reported.
    InvalidDomain,
    /// A sequence of cash flows holds no cash flow.
    EmptyInput,
}

} // verus!

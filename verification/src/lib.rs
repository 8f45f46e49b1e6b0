//! Time-value-of-money and corporate-finance formulas in double precision.
//!
//! A number is a binary64 bit pattern (`double`). Sums, differences, products
//! and quotients are computed on the patterns and proved to be the roundings
//! that IEEE 754 asks for (`rounding`, `arithmetic`). On these stand the
//! formulas: those made of the four operations alone (`formulas`), and, in
//! two parts each, those that need a power or a logarithm from their caller
//! (`compounding`). Which inputs a formula takes is said in `domain`.
//!
//! There is one rounding rule. Every sum, difference, product and quotient
//! is rounded to the nearest binary64 number, ties to the even pattern, and
//! that is all the rounding there is: no formula rounds its result to decimal
//! places. Whoever presents an amount or a rate rounds it to the decimal
//! places wanted as the last step, outside the formulas. A return on
//! investment is meant to be used as it comes, not rounded.

pub mod arithmetic;
pub mod compounding;
pub mod domain;
pub mod double;
pub mod error;
pub mod formulas;
mod powers;
mod reals;
pub mod rounding;
mod scaled;

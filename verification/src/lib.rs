//! Decimal digits of pi, computed with the Chudnovsky series evaluated by
//! binary splitting over exact arbitrary-precision integers.

pub mod arith;
pub mod decimal;
pub mod series;
pub mod chudnovsky;

//! A dimensioned-value arithmetic engine.
//!
//! A [`val::Val`] pairs an exact rational mantissa with a [`unit::Unit`]
//! describing a physical dimension and a base-10 scale.  Arithmetic on
//! values enforces dimensional correctness and keeps results in a
//! canonical scientific-notation form: a mantissa with magnitude in
//! [1,10) (or exactly zero) times a unit multiplier in [1,10), times an
//! integer power of ten.

pub mod dim;
pub mod rat;
mod text;
pub mod unit;
pub mod val;

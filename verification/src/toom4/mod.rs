//! Toom-Cook 4-way multiplication and squaring: split each operand in four,
//! evaluate at `0, 1, -1, 2, -2, 1/2, ∞`, multiply pointwise, and interpolate
//! the seven coefficients of the product polynomial.

pub mod algebra;
pub mod cook;
pub mod evaluate;
pub mod interpolate;

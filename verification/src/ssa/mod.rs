//! Schönhage-Strassen multiplication over Fermat rings `Z/(2^N + 1)` and
//! the `B^n - 1` / `B^n + 1` decomposition that feeds it.
//!
//! `drive` runs the transform product and square: `coefficients` splits and
//! twists the operands, `butterfly` transforms them, `pointwise` multiplies
//! the frequencies (recursively through `negacyclic` and the basecase),
//! and `reconstruct` untwists and accumulates the result. `dft`, `inversion`,
//! `convolution`, `twist`, `evaluation` and `pipeline` hold the algebra that
//! proves the chain computes the product.

pub mod carry;
pub mod ring;
pub mod tuning;
pub mod plan;
pub mod negacyclic;
pub mod cofactor;
pub mod reconstruct;
pub mod dft;
pub mod butterfly;
pub mod inversion;
pub mod convolution;
pub mod twist;
pub mod evaluation;
pub mod pipeline;
pub mod drive;
pub mod pointwise;
pub mod crt;
pub mod entry;
pub mod prepared;
pub mod square_plan;
pub mod transform;
pub mod shift;
pub mod coefficients;

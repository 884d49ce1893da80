//! Schönhage–Strassen and Toom-Cook multiplication over little-endian limb
//! slices, with the Fermat-ring and `B^n - 1` arithmetic they are built on.

pub mod limbs;
pub mod num;
pub mod kernels;
pub mod basecase;
pub mod ssa;
pub mod eval;
pub mod toom3;
pub mod toom32;
pub mod toom4;

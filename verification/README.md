# Verified Schönhage–Strassen and Toom-Cook multiplication

A Verus library for multiplying little-endian `u64` limb slices, with every
function in `src/` proved against its contract.

## Layout

- `limbs`, `num`, `kernels`, `basecase`, `eval`: limb values, carries,
  schoolbook products and the shared evaluation helpers.
- `toom3`, `toom32`, `toom4`: Toom-Cook products and squares with exact
  contracts (`val(dst) == val(a) * val(b)`).
- `ssa`: the Fermat-ring tier.
  - `ring`, `shift`, `carry`: arithmetic in `Z/(2^n + 1)`, multiplication
    by powers of two and of `sqrt(2)`.
  - `coefficients`, `reconstruct`: splitting an operand into twisted chunks
    and rebuilding a product from signed coefficients.
  - `butterfly`: the radix-2 decimation-in-frequency and decimation-in-time
    transforms, and `fft_in_place`.
  - `pointwise`, `negacyclic`: the products of the transformed coefficients.
  - `drive`: `fft_mul_mod_slices` and `fft_sqr_mod_slices`, whose contract is
    the residue of the product modulo `2^N + 1`.
  - `crt`, `entry`, `prepared`, `square_plan`, `plan`: the `B^n - 1` /
    `B^n + 1` decomposition, the planner and the public entry points.
  - `dft`, `inversion`, `convolution`, `twist`, `evaluation`, `pipeline`:
    the algebra behind the transform — the transforms compute discrete
    Fourier sums, the inverse after the forward multiplies by the length,
    the transform of a pointwise product is a cyclic convolution, the twist
    makes it negacyclic, and the negacyclic product of the chunks evaluates
    to the product modulo `2^N + 1`.

## Tests

The tests under `tests/` exercise the library against direct modular
arithmetic and schoolbook products.

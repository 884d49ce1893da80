//! The discrete Fourier transform over `Z/(2^n + 1)` with a power-of-two
//! root, and the algebra a decimation-in-frequency step rests on.
//!
//! With root `w = 2^r`, output frequency `q` of a sequence `v` is
//! `sum_j v[j] * 2^(r * q * j)`. A radix-2 step of length `K = 2h` and
//! `w^h = -1` maps `v` to the halves `v[j] + v[h + j]` and
//! `(v[j] - v[h + j]) * w^j`, whose transforms with root `w^2` are the even
//! and the odd frequencies of `v`.

use crate::limbs::{lemma_pow_b_pos, pow_b};
use crate::num::{lemma_two_pow_pos, two_pow};
use crate::ssa::entry::{lemma_two_pow_add, lemma_two_pow_limbs};
use crate::ssa::ring::fermat_modulus;
use crate::ssa::shift::lemma_pow2_period;
use vstd::arithmetic::div_mod::*;
use vstd::arithmetic::mul::*;
use vstd::prelude::*;

verus! {

/// `sum_{j < count} v[j] * 2^(w * j)`.
pub open spec fn power_sum(v: Seq<int>, w: nat, count: nat) -> int
    decreases count,
{
    if count == 0 {
        0
    } else {
        power_sum(v, w, (count - 1) as nat) + v[count - 1] * two_pow(w * (count - 1) as nat)
    }
}

/// `k` is a power of two.
pub open spec fn is_power_of_two(k: nat) -> bool
    decreases k,
{
    if k <= 1 {
        k == 1
    } else {
        k % 2 == 0 && is_power_of_two(k / 2)
    }
}

/// `p` with its `log2(k)` bits reversed.
pub open spec fn bit_reverse(p: nat, k: nat) -> nat
    decreases k,
{
    if k <= 1 {
        0
    } else if p < k / 2 {
        2 * bit_reverse(p, k / 2)
    } else {
        2 * bit_reverse((p - k / 2) as nat, k / 2) + 1
    }
}

/// Powers of two agree modulo `2^n + 1` when their exponents agree modulo `2n`.
pub proof fn lemma_two_pow_congruent(ml: nat, a: nat, b: nat)
    requires
        ml >= 1,
        a % (128 * ml) == b % (128 * ml),
    ensures
        (two_pow(a) as int) % (fermat_modulus(ml) as int) == (two_pow(b) as int) % (fermat_modulus(ml) as int),
{
    let p = 128 * ml;
    lemma_fundamental_div_mod(a as int, p as int);
    lemma_fundamental_div_mod(b as int, p as int);
    let r = a % p;
    lemma_pow2_period(ml, r, a / p);
    lemma_pow2_period(ml, r, b / p);
    assert(r + 2 * (64 * ml) * (a / p) == a) by {
        lemma_mul_is_commutative(p as int, (a / p) as int);
    }
    assert(r + 2 * (64 * ml) * (b / p) == b) by {
        lemma_mul_is_commutative(p as int, (b / p) as int);
    }
}

/// An exponent of `n` modulo `2n` gives `-1`.
pub proof fn lemma_two_pow_negative_one(ml: nat, e: nat)
    requires
        ml >= 1,
        e % (128 * ml) == 64 * ml,
    ensures
        (two_pow(e) as int) % (fermat_modulus(ml) as int) == (-1int) % (fermat_modulus(ml) as int),
{
    let m = fermat_modulus(ml) as int;
    lemma_pow_b_pos(ml);
    lemma_small_mod(64 * ml, 128 * ml);
    lemma_two_pow_congruent(ml, e, 64 * ml);
    lemma_two_pow_limbs(ml);
    lemma_mod_multiples_vanish(1, -1, m);
    assert(m * 1 + -1 == pow_b(ml)) by {
        lemma_mul_basics(m);
    }
}

/// An exponent divisible by `2n` gives one.
pub proof fn lemma_two_pow_one(ml: nat, e: nat)
    requires
        ml >= 1,
        e % (128 * ml) == 0,
    ensures
        (two_pow(e) as int) % (fermat_modulus(ml) as int) == 1int % (fermat_modulus(ml) as int),
{
    lemma_small_mod(0, 128 * ml);
    lemma_two_pow_congruent(ml, e, 0);
    assert(two_pow(0) == 1);
}

/// The sum over `h + j` terms is the first `h` plus `2^(w h)` times the
/// next `j`, reindexed from zero.
pub proof fn lemma_power_sum_split(v: Seq<int>, w: nat, h: nat, j: nat)
    requires
        h + j <= v.len(),
    ensures
        power_sum(v, w, h + j) == power_sum(v, w, h) + two_pow(w * h) * power_sum(
            v.subrange(h as int, v.len() as int),
            w,
            j,
        ),
    decreases j,
{
    let tail = v.subrange(h as int, v.len() as int);
    if j == 0 {
        lemma_mul_basics(two_pow(w * h) as int);
    } else {
        let i = (j - 1) as nat;
        lemma_power_sum_split(v, w, h, i);
        assert(tail[i as int] == v[(h + i) as int]);
        assert(w * (h + i) == w * h + w * i) by (nonlinear_arith);
        lemma_two_pow_add(w * h, w * i);
        let a = two_pow(w * h) as int;
        let b = two_pow(w * i) as int;
        assert(((h + j - 1) as nat) == h + i);
        assert(a * (power_sum(tail, w, i) + tail[i as int] * b) == a * power_sum(tail, w, i) + v[(h + i) as int] * (a
            * b)) by (nonlinear_arith)
            requires
                tail[i as int] == v[(h + i) as int],
        ;
    }
}

/// Sums taken elementwise: `c = a + s * b` gives `P(c) = P(a) + s * P(b)`.
pub proof fn lemma_power_sum_linear(a: Seq<int>, b: Seq<int>, c: Seq<int>, s: int, w: nat, count: nat)
    requires
        count <= a.len(),
        count <= b.len(),
        count <= c.len(),
        forall|j: int| 0 <= j < count ==> c[j] == a[j] + s * b[j],
    ensures
        power_sum(c, w, count) == power_sum(a, w, count) + s * power_sum(b, w, count),
    decreases count,
{
    if count > 0 {
        let i = (count - 1) as nat;
        lemma_power_sum_linear(a, b, c, s, w, i);
        let t = two_pow(w * i) as int;
        assert(c[i as int] * t == a[i as int] * t + s * (b[i as int] * t)) by (nonlinear_arith)
            requires
                c[i as int] == a[i as int] + s * b[i as int],
        ;
        assert(s * (power_sum(b, w, i) + b[i as int] * t) == s * power_sum(b, w, i) + s * (b[i as int] * t))
            by (nonlinear_arith);
    }
}

/// Elementwise congruent sequences have congruent sums.
pub proof fn lemma_power_sum_congruent(a: Seq<int>, b: Seq<int>, w: nat, count: nat, m: int)
    requires
        m > 0,
        count <= a.len(),
        count <= b.len(),
        forall|j: int| 0 <= j < count ==> a[j] % m == b[j] % m,
    ensures
        power_sum(a, w, count) % m == power_sum(b, w, count) % m,
    decreases count,
{
    if count > 0 {
        let i = (count - 1) as nat;
        lemma_power_sum_congruent(a, b, w, i, m);
        let t = two_pow(w * i) as int;
        lemma_mul_mod_noop(a[i as int], t, m);
        lemma_mul_mod_noop(b[i as int], t, m);
        lemma_add_mod_noop(power_sum(a, w, i), a[i as int] * t, m);
        lemma_add_mod_noop(power_sum(b, w, i), b[i as int] * t, m);
    }
}

/// Roots whose shifts agree modulo `2n` give congruent sums.
pub proof fn lemma_power_sum_root(v: Seq<int>, w1: nat, w2: nat, count: nat, ml: nat)
    requires
        ml >= 1,
        count <= v.len(),
        w1 % (128 * ml) == w2 % (128 * ml),
    ensures
        power_sum(v, w1, count) % (fermat_modulus(ml) as int) == power_sum(v, w2, count) % (fermat_modulus(
            ml,
        ) as int),
    decreases count,
{
    let m = fermat_modulus(ml) as int;
    lemma_pow_b_pos(ml);
    if count > 0 {
        let i = (count - 1) as nat;
        lemma_power_sum_root(v, w1, w2, i, ml);
        let p = (128 * ml) as int;
        lemma_mul_mod_noop(w1 as int, i as int, p);
        lemma_mul_mod_noop(w2 as int, i as int, p);
        lemma_two_pow_congruent(ml, w1 * i, w2 * i);
        lemma_mul_mod_noop(v[i as int], two_pow(w1 * i) as int, m);
        lemma_mul_mod_noop(v[i as int], two_pow(w2 * i) as int, m);
        lemma_add_mod_noop(power_sum(v, w1, i), v[i as int] * two_pow(w1 * i), m);
        lemma_add_mod_noop(power_sum(v, w2, i), v[i as int] * two_pow(w2 * i), m);
    }
}

/// Pre-multiplying term `j` by `2^(r j)` turns root `2r b` into `r (2b + 1)`.
pub proof fn lemma_power_sum_twiddle(d: Seq<int>, t: Seq<int>, r: nat, b: nat, count: nat)
    requires
        count <= d.len(),
        count <= t.len(),
        forall|j: int| 0 <= j < count ==> t[j] == d[j] * two_pow(r * j as nat),
    ensures
        power_sum(t, 2 * r * b, count) == power_sum(d, r * (2 * b + 1), count),
    decreases count,
{
    if count > 0 {
        let i = (count - 1) as nat;
        lemma_power_sum_twiddle(d, t, r, b, i);
        assert(r * (2 * b + 1) * i == r * i + 2 * r * b * i) by (nonlinear_arith);
        lemma_two_pow_add(r * i, 2 * r * b * i);
        assert(t[i as int] * two_pow(2 * r * b * i) == d[i as int] * two_pow(r * (2 * b + 1) * i)) by (
        nonlinear_arith)
            requires
                t[i as int] == d[i as int] * two_pow(r * i),
                two_pow(r * (2 * b + 1) * i) == two_pow(r * i) * two_pow(2 * r * b * i),
        ;
    }
}

/// `(x + a * y) mod m` with `a = 1` or `a = -1` modulo `m`.
proof fn lemma_unit_factor(x: int, a: int, y: int, u: int, m: int)
    requires
        m > 1,
        u == 1 || u == -1,
        a % m == u % m,
    ensures
        (x + a * y) % m == (x + u * y) % m,
{
    lemma_mul_mod_noop(a, y, m);
    lemma_mul_mod_noop(u, y, m);
    lemma_add_mod_noop(x, a * y, m);
    lemma_add_mod_noop(x, u * y, m);
}

/// One decimation-in-frequency step: with `w^h = -1` for `w = 2^r`, the
/// transform of the sums `v[j] + v[h + j]` with root `w^2` gives the even
/// frequencies of `v`, and that of the twisted differences
/// `(v[j] - v[h + j]) * w^j` the odd ones.
pub proof fn lemma_dif_step(v: Seq<int>, low: Seq<int>, high: Seq<int>, h: nat, r: nat, b: nat, ml: nat)
    requires
        ml >= 1,
        v.len() == 2 * h,
        low.len() == h,
        high.len() == h,
        (r * h) % (128 * ml) == 64 * ml,
        forall|j: int|
            0 <= j < h ==> #[trigger] low[j] % (fermat_modulus(ml) as int) == (v[j] + v[h + j]) % (fermat_modulus(
                ml,
            ) as int),
        forall|j: int|
            0 <= j < h ==> #[trigger] high[j] % (fermat_modulus(ml) as int) == ((v[j] - v[h + j]) * two_pow(
                r * j as nat,
            )) % (fermat_modulus(ml) as int),
    ensures
        power_sum(low, 2 * r * b, h) % (fermat_modulus(ml) as int) == power_sum(v, r * (2 * b), 2 * h) % (
        fermat_modulus(ml) as int),
        power_sum(high, 2 * r * b, h) % (fermat_modulus(ml) as int) == power_sum(v, r * (2 * b + 1), 2 * h)
            % (fermat_modulus(ml) as int),
{
    let m = fermat_modulus(ml) as int;
    lemma_pow_b_pos(ml);
    let n = 64 * ml;
    let tail = v.subrange(h as int, v.len() as int);
    let c = (r * h) / (128 * ml);
    lemma_fundamental_div_mod((r * h) as int, (128 * ml) as int);
    // Even frequencies.
    let we = r * (2 * b);
    assert(we == 2 * r * b) by (nonlinear_arith)
        requires
            we == r * (2 * b),
    ;
    lemma_power_sum_split(v, we, h, h);
    assert((we * h) % (128 * ml) == 0) by {
        assert(we * h == (128 * ml) * (b + 2 * b * c)) by (nonlinear_arith)
            requires
                we == r * (2 * b),
                r * h == (128 * ml) * c + 64 * ml,
        ;
        lemma_mod_multiples_vanish((b + 2 * b * c) as int, 0, (128 * ml) as int);
    }
    lemma_two_pow_one(ml, we * h);
    let sums = Seq::new(h, |j: int| v[j] + v[h + j]);
    lemma_power_sum_linear(v, tail, sums, 1, we, h);
    lemma_power_sum_congruent(low, sums, we, h, m);
    lemma_unit_factor(power_sum(v, we, h), two_pow(we * h) as int, power_sum(tail, we, h), 1, m);
    // Odd frequencies.
    let wo = r * (2 * b + 1);
    lemma_power_sum_split(v, wo, h, h);
    assert((wo * h) % (128 * ml) == 64 * ml) by {
        assert(wo * h == (128 * ml) * (b + (2 * b + 1) * c) + 64 * ml) by (nonlinear_arith)
            requires
                wo == r * (2 * b + 1),
                r * h == (128 * ml) * c + 64 * ml,
        ;
        lemma_mod_multiples_vanish((b + (2 * b + 1) * c) as int, (64 * ml) as int, (128 * ml) as int);
        lemma_small_mod(64 * ml, 128 * ml);
    }
    lemma_two_pow_negative_one(ml, wo * h);
    let diffs = Seq::new(h, |j: int| v[j] - v[h + j]);
    lemma_power_sum_linear(v, tail, diffs, -1, wo, h);
    lemma_unit_factor(power_sum(v, wo, h), two_pow(wo * h) as int, power_sum(tail, wo, h), -1, m);
    let twisted = Seq::new(h, |j: int| diffs[j] * two_pow(r * j as nat));
    lemma_power_sum_twiddle(diffs, twisted, r, b, h);
    lemma_power_sum_congruent(high, twisted, 2 * r * b, h, m);
}

/// `sum_{p < count} x[p] * 2^(w * bit_reverse(p, k))`: a transform read
/// from bit-reversed input.
pub open spec fn reversed_sum(x: Seq<int>, w: nat, k: nat, count: nat) -> int
    decreases count,
{
    if count == 0 {
        0
    } else {
        reversed_sum(x, w, k, (count - 1) as nat) + x[count - 1] * two_pow(w * bit_reverse((count - 1) as nat, k))
    }
}

/// The first half of a bit-reversed sum reads the low half with root `2w`.
proof fn lemma_reversed_low(x: Seq<int>, w: nat, h: nat, c: nat)
    requires
        h >= 1,
        c <= h,
        x.len() >= h,
    ensures
        reversed_sum(x, w, 2 * h, c) == reversed_sum(x.subrange(0, h as int), 2 * w, h, c),
    decreases c,
{
    if c > 0 {
        let p = (c - 1) as nat;
        lemma_reversed_low(x, w, h, p);
        assert((2 * h) / 2 == h);
        assert(bit_reverse(p, 2 * h) == 2 * bit_reverse(p, h));
        assert(w * (2 * bit_reverse(p, h)) == (2 * w) * bit_reverse(p, h)) by (nonlinear_arith);
    }
}

/// The second half reads the high half with root `2w`, each term carrying
/// one more `2^w`.
proof fn lemma_reversed_high(x: Seq<int>, w: nat, h: nat, c: nat)
    requires
        h >= 1,
        c <= h,
        x.len() >= 2 * h,
    ensures
        reversed_sum(x, w, 2 * h, h + c) == reversed_sum(x, w, 2 * h, h) + two_pow(w) * reversed_sum(
            x.subrange(h as int, 2 * h as int),
            2 * w,
            h,
            c,
        ),
    decreases c,
{
    let hi = x.subrange(h as int, 2 * h as int);
    if c == 0 {
        lemma_mul_basics(two_pow(w) as int);
    } else {
        let p = (c - 1) as nat;
        lemma_reversed_high(x, w, h, p);
        assert((2 * h) / 2 == h);
        assert(((h + c - 1) as nat) == h + p);
        assert(bit_reverse(h + p, 2 * h) == 2 * bit_reverse(p, h) + 1);
        let b = bit_reverse(p, h);
        assert(w * (2 * b + 1) == w + (2 * w) * b) by (nonlinear_arith);
        lemma_two_pow_add(w, (2 * w) * b);
        assert(hi[p as int] == x[(h + p) as int]);
        let a = two_pow(w) as int;
        let t = two_pow((2 * w) * b) as int;
        assert(a * (reversed_sum(hi, 2 * w, h, p) + hi[p as int] * t) == a * reversed_sum(hi, 2 * w, h, p)
            + x[(h + p) as int] * (a * t)) by (nonlinear_arith)
            requires
                hi[p as int] == x[(h + p) as int],
        ;
    }
}

/// A bit-reversed sum over `2h` terms splits into the halves' sums with root `2w`.
pub proof fn lemma_reversed_split(x: Seq<int>, w: nat, h: nat)
    requires
        h >= 1,
        x.len() == 2 * h,
    ensures
        reversed_sum(x, w, 2 * h, 2 * h) == reversed_sum(x.subrange(0, h as int), 2 * w, h, h) + two_pow(w)
            * reversed_sum(x.subrange(h as int, 2 * h as int), 2 * w, h, h),
{
    lemma_reversed_low(x, w, h, h);
    lemma_reversed_high(x, w, h, h);
}

/// Roots whose shifts agree modulo `2n` give congruent bit-reversed sums.
pub proof fn lemma_reversed_root(x: Seq<int>, w1: nat, w2: nat, k: nat, count: nat, ml: nat)
    requires
        ml >= 1,
        count <= x.len(),
        w1 % (128 * ml) == w2 % (128 * ml),
    ensures
        reversed_sum(x, w1, k, count) % (fermat_modulus(ml) as int) == reversed_sum(x, w2, k, count) % (
        fermat_modulus(ml) as int),
    decreases count,
{
    let m = fermat_modulus(ml) as int;
    lemma_pow_b_pos(ml);
    if count > 0 {
        let i = (count - 1) as nat;
        lemma_reversed_root(x, w1, w2, k, i, ml);
        let b = bit_reverse(i, k);
        let p = (128 * ml) as int;
        lemma_mul_mod_noop(w1 as int, b as int, p);
        lemma_mul_mod_noop(w2 as int, b as int, p);
        lemma_two_pow_congruent(ml, w1 * b, w2 * b);
        lemma_mul_mod_noop(x[i as int], two_pow(w1 * b) as int, m);
        lemma_mul_mod_noop(x[i as int], two_pow(w2 * b) as int, m);
        lemma_add_mod_noop(reversed_sum(x, w1, k, i), x[i as int] * two_pow(w1 * b), m);
        lemma_add_mod_noop(reversed_sum(x, w2, k, i), x[i as int] * two_pow(w2 * b), m);
    }
}

/// One decimation-in-time step with inverse shift `u` (`w^-1 = 2^u`,
/// `u h = n` modulo `2n`): slot `j` of the result is the low transform plus
/// `2^(u j)` times the high one, slot `h + j` the difference.
pub proof fn lemma_dit_step(x: Seq<int>, lo: int, hi: int, u: nat, j: nat, h: nat, ml: nat)
    requires
        ml >= 1,
        h >= 1,
        x.len() == 2 * h,
        (u * h) % (128 * ml) == 64 * ml,
        lo % (fermat_modulus(ml) as int) == reversed_sum(x.subrange(0, h as int), 2 * u * j, h, h) % (
        fermat_modulus(ml) as int),
        hi % (fermat_modulus(ml) as int) == reversed_sum(x.subrange(h as int, 2 * h as int), 2 * u * j, h, h)
            % (fermat_modulus(ml) as int),
    ensures
        (lo + hi * two_pow(u * j)) % (fermat_modulus(ml) as int) == reversed_sum(x, u * j, 2 * h, 2 * h) % (
        fermat_modulus(ml) as int),
        (lo - hi * two_pow(u * j)) % (fermat_modulus(ml) as int) == reversed_sum(x, u * (j + h), 2 * h, 2 * h)
            % (fermat_modulus(ml) as int),
{
    let m = fermat_modulus(ml) as int;
    lemma_pow_b_pos(ml);
    let xl = x.subrange(0, h as int);
    let xh = x.subrange(h as int, 2 * h as int);
    let t = two_pow(u * j) as int;
    // Slot j.
    lemma_reversed_split(x, u * j, h);
    assert(2 * (u * j) == 2 * u * j) by (nonlinear_arith);
    lemma_mul_mod_noop(hi, t, m);
    lemma_mul_mod_noop(reversed_sum(xh, 2 * u * j, h, h), t, m);
    lemma_add_mod_noop(lo, hi * t, m);
    lemma_add_mod_noop(reversed_sum(xl, 2 * u * j, h, h), reversed_sum(xh, 2 * u * j, h, h) * t, m);
    lemma_mul_is_commutative(t, reversed_sum(xh, 2 * u * j, h, h));
    // Slot h + j: 2 u (j + h) = 2 u j modulo 2n, and 2^(u (j + h)) = -2^(u j).
    let w2 = u * (j + h);
    lemma_reversed_split(x, w2, h);
    let c = (u * h) / (128 * ml);
    lemma_fundamental_div_mod((u * h) as int, (128 * ml) as int);
    assert(2 * w2 == 2 * u * j + (128 * ml) * (2 * c + 1)) by (nonlinear_arith)
        requires
            w2 == u * (j + h),
            u * h == (128 * ml) * c + 64 * ml,
    ;
    lemma_mod_multiples_vanish((2 * c + 1) as int, (2 * u * j) as int, (128 * ml) as int);
    lemma_reversed_root(xl, 2 * w2, 2 * u * j, h, h, ml);
    lemma_reversed_root(xh, 2 * w2, 2 * u * j, h, h, ml);
    assert(w2 == u * j + u * h) by (nonlinear_arith)
        requires
            w2 == u * (j + h),
    ;
    lemma_two_pow_add(u * j, u * h);
    lemma_two_pow_negative_one(ml, u * h);
    let s = two_pow(u * h) as int;
    let a = reversed_sum(xl, 2 * w2, h, h);
    let bsum = reversed_sum(xh, 2 * w2, h, h);
    let bj = reversed_sum(xh, 2 * u * j, h, h);
    let aj = reversed_sum(xl, 2 * u * j, h, h);
    // rs(x, w2) = a + t * s * bsum, with s = -1 and bsum = bj modulo m.
    assert(two_pow(w2) as int * bsum == s * (t * bsum)) by (nonlinear_arith)
        requires
            two_pow(w2) == two_pow(u * j) * two_pow(u * h),
            t == two_pow(u * j),
            s == two_pow(u * h),
    ;
    lemma_mul_mod_noop(s, t * bsum, m);
    lemma_mul_mod_noop(-1, t * bsum, m);
    lemma_add_mod_noop(a, s * (t * bsum), m);
    lemma_add_mod_noop(a, -1 * (t * bsum), m);
    lemma_mul_mod_noop(t, bsum, m);
    lemma_mul_mod_noop(t, bj, m);
    lemma_sub_mod_noop(a, t * bsum, m);
    lemma_sub_mod_noop(aj, t * bj, m);
    lemma_sub_mod_noop(lo, hi * t, m);
    lemma_mul_is_commutative(hi, t);
    lemma_mul_mod_noop(t, hi, m);
}

} // verus!

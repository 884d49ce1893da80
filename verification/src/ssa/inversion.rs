//! The inverse transform undoes the forward one up to the factor `K`.
//!
//! Composing the two sums swaps into `sum_i v[i] * S(e_ij)` with `S(e)` the
//! bit-reversed geometric sum of `2^e`; `S` is `K` when `e` is a multiple of
//! `2n` and vanishes modulo `2^n + 1` when some `2^(e * 2^t)` is `-1`.

use crate::limbs::lemma_pow_b_pos;
use crate::num::two_pow;
use crate::ssa::dft::{
    bit_reverse, is_power_of_two, lemma_reversed_split, lemma_two_pow_negative_one, lemma_two_pow_one, power_sum,
    reversed_sum,
};
use crate::ssa::entry::lemma_two_pow_add;
use crate::limbs::Limb;
use crate::ssa::ring::{canonical, fermat_modulus, residue, slot_value};
use crate::ssa::shift::shifted_residue;
use vstd::arithmetic::div_mod::*;
use vstd::arithmetic::mul::*;
use vstd::prelude::*;

verus! {

/// `k` ones.
pub open spec fn ones(k: nat) -> Seq<int> {
    Seq::new(k, |i: int| 1int)
}

/// `sum_{p < k} 2^(e * bit_reverse(p, k))`.
pub open spec fn root_sum(e: nat, k: nat) -> int {
    reversed_sum(ones(k), e, k, k)
}

/// `S(e, 2h) = (1 + 2^e) * S(2e, h)`.
proof fn lemma_root_sum_split(e: nat, h: nat)
    requires
        h >= 1,
    ensures
        root_sum(e, 2 * h) == (1 + two_pow(e)) * root_sum(2 * e, h),
{
    let x = ones(2 * h);
    lemma_reversed_split(x, e, h);
    assert(x.subrange(0, h as int) =~= ones(h));
    assert(x.subrange(h as int, 2 * h as int) =~= ones(h));
    lemma_mul_is_distributive_add_other_way(root_sum(2 * e, h), 1, two_pow(e) as int);
    lemma_mul_is_commutative(two_pow(e) as int, root_sum(2 * e, h));
}

/// `S(e, k)` vanishes modulo `2^n + 1` when `2^(e * m) = -1` for a power of
/// two `m <= k / 2`.
proof fn lemma_root_sum_vanishes(e: nat, k: nat, m: nat, ml: nat)
    requires
        ml >= 1,
        is_power_of_two(k),
        is_power_of_two(m),
        2 * m <= k,
        (e * m) % (128 * ml) == 64 * ml,
    ensures
        root_sum(e, k) % (fermat_modulus(ml) as int) == 0,
    decreases k,
{
    let f = fermat_modulus(ml) as int;
    lemma_pow_b_pos(ml);
    assert(m >= 1);
    assert(k >= 2);
    let h = k / 2;
    assert(k == 2 * h && is_power_of_two(h));
    lemma_root_sum_split(e, h);
    let t = 1 + two_pow(e) as int;
    let s = root_sum(2 * e, h);
    if m == 1 {
        lemma_mul_basics(e as int);
        lemma_two_pow_negative_one(ml, e);
        lemma_add_mod_noop(1, two_pow(e) as int, f);
        lemma_add_mod_noop(1, -1, f);
        lemma_small_mod(0, f as nat);
        assert(t % f == 0);
        lemma_mul_mod_noop_left(t, s, f);
        lemma_mul_basics(s);
        assert(root_sum(e, k) == t * s);
        assert((t * s) % f == 0);
    } else {
        let m2 = m / 2;
        assert(m == 2 * m2 && is_power_of_two(m2));
        assert((2 * e) * m2 == e * m) by (nonlinear_arith)
            requires
                m == 2 * m2,
        ;
        lemma_root_sum_vanishes(2 * e, h, m2, ml);
        lemma_mul_mod_noop_right(t, s, f);
        lemma_mul_basics(t);
        lemma_small_mod(0, f as nat);
        assert(root_sum(e, k) == t * s);
        assert((t * s) % f == 0);
    }
}

/// When `2n` divides `e`, every term of `S(e, k)` is one.
proof fn lemma_root_sum_full(e: nat, k: nat, count: nat, ml: nat)
    requires
        ml >= 1,
        e % (128 * ml) == 0,
        count <= k,
    ensures
        reversed_sum(ones(k), e, k, count) % (fermat_modulus(ml) as int) == (count as int) % (fermat_modulus(
            ml,
        ) as int),
    decreases count,
{
    let f = fermat_modulus(ml) as int;
    lemma_pow_b_pos(ml);
    if count > 0 {
        let i = (count - 1) as nat;
        lemma_root_sum_full(e, k, i, ml);
        let b = bit_reverse(i, k);
        lemma_mul_mod_noop_left(e as int, b as int, (128 * ml) as int);
        lemma_mul_basics(b as int);
        lemma_small_mod(0, 128 * ml);
        lemma_two_pow_one(ml, e * b);
        assert(ones(k)[i as int] == 1);
        lemma_mul_basics(two_pow(e * b) as int);
        lemma_add_mod_noop(reversed_sum(ones(k), e, k, i), two_pow(e * b) as int, f);
        lemma_add_mod_noop(i as int, 1, f);
    }
}

/// A positive `d < k` is an odd multiple of `(k / 2) / m` for a power of two
/// `m <= k / 2`: the result is `(m, o)` with `d * m == o * (k / 2)`.
proof fn lemma_odd_part(d: nat, k: nat) -> (r: (nat, nat))
    requires
        is_power_of_two(k),
        0 < d < k,
    ensures
        is_power_of_two(r.0),
        2 * r.0 <= k,
        r.1 % 2 == 1,
        d * r.0 == r.1 * (k / 2),
    decreases k,
{
    assert(k >= 2);
    let h = k / 2;
    assert(k == 2 * h && is_power_of_two(h));
    if d % 2 == 1 {
        (h, d)
    } else {
        let d2 = d / 2;
        assert(0 < d2 < h);
        assert(h >= 2 && h % 2 == 0);
        let r = lemma_odd_part(d2, h);
        assert(d * r.0 == r.1 * h) by (nonlinear_arith)
            requires
                d == 2 * d2,
                d2 * r.0 == r.1 * (h / 2),
                h == 2 * (h / 2),
        ;
        r
    }
}

/// The cross sum `S(r i + (2n - r) j, k)` is `k` on the diagonal and zero
/// elsewhere, modulo `2^n + 1`.
pub(crate) proof fn lemma_root_sum_cross(r: nat, i: nat, j: nat, k: nat, ml: nat)
    requires
        ml >= 1,
        is_power_of_two(k),
        r < 128 * ml,
        k >= 2 ==> (r * (k / 2)) % (128 * ml) == 64 * ml,
        i < k,
        j < k,
    ensures
        root_sum(r * i + ((128 * ml - r) as nat) * j, k) % (fermat_modulus(ml) as int) == (if i == j {
            k as int
        } else {
            0int
        }) % (fermat_modulus(ml) as int),
{
    let f = fermat_modulus(ml) as int;
    let p = (128 * ml) as int;
    let u = (128 * ml - r) as nat;
    let e = r * i + u * j;
    lemma_pow_b_pos(ml);
    if i == j {
        assert(e == p * j) by (nonlinear_arith)
            requires
                e == r * i + u * j,
                u == p - r,
                i == j,
        ;
        lemma_mod_multiples_basic(j as int, p);
        lemma_root_sum_full(e, k, k, ml);
    } else {
        assert(k >= 2);
        let d = if i > j {
            (i - j) as nat
        } else {
            (j - i) as nat
        };
        let mo = lemma_odd_part(d, k);
        let m = mo.0;
        let o = mo.1;
        let c = (r * (k / 2)) as int / p;
        lemma_fundamental_div_mod((r * (k / 2)) as int, p);
        let q = o / 2;
        assert(o == 2 * q + 1);
        let n = (64 * ml) as int;
        assert(p == 2 * n);
        let km = (k / 2) as int;
        // r * d * m = o * r * (k / 2) = o * (p c + n) = p (o c + q) + n.
        assert(r * (d * m) == o * (r * km)) by (nonlinear_arith)
            requires
                d * m == o * km,
        ;
        assert(o * (r * km) == p * (o * c + q) + n) by (nonlinear_arith)
            requires
                r * km == p * c + n,
                o == 2 * q + 1,
                p == 2 * n,
        ;
        lemma_mul_is_associative(r as int, d as int, m as int);
        if i > j {
            assert(e == r * d + p * j) by (nonlinear_arith)
                requires
                    e == r * i + u * j,
                    u == p - r,
                    d == i - j,
            ;
            lemma_mul_is_distributive_add_other_way(m as int, (r * d) as int, p * j);
            lemma_mul_is_associative(p, j as int, m as int);
            assert(e * m == p * (o * c + q + j * m) + n) by (nonlinear_arith)
                requires
                    e * m == (r * d) * m + p * (j * m),
                    (r * d) * m == p * (o * c + q) + n,
            ;
            lemma_fundamental_div_mod_converse((e * m) as int, p, o * c + q + j * m, n);
        } else {
            assert(e + r * d == p * j) by (nonlinear_arith)
                requires
                    e == r * i + u * j,
                    u == p - r,
                    d == j - i,
            ;
            lemma_mul_is_distributive_add_other_way(m as int, e as int, (r * d) as int);
            lemma_mul_is_associative(p, j as int, m as int);
            assert(e * m == p * (j * m - o * c - q - 1) + n) by (nonlinear_arith)
                requires
                    e * m + (r * d) * m == p * (j * m),
                    (r * d) * m == p * (o * c + q) + n,
                    p == 2 * n,
            ;
            lemma_fundamental_div_mod_converse((e * m) as int, p, j * m - o * c - q - 1, n);
        }
        lemma_root_sum_vanishes(e, k, m, ml);
        lemma_small_mod(0, f as nat);
    }
}

/// The forward transform's values with only the first `c` inputs summed:
/// `x[p] = sum_{i < c} v[i] * 2^(r * bit_reverse(p) * i)`.
pub open spec fn partial_transform(v: Seq<int>, r: nat, k: nat, c: nat) -> Seq<int> {
    Seq::new(k, |p: int| power_sum(v, r * bit_reverse(p as nat, k), c))
}

/// `sum_{i < c} v[i] * S(r * i + s, k)`.
pub open spec fn weighted_root_sums(v: Seq<int>, r: nat, s: nat, k: nat, c: nat) -> int
    decreases c,
{
    if c == 0 {
        0
    } else {
        weighted_root_sums(v, r, s, k, (c - 1) as nat) + v[c - 1] * root_sum(r * (c - 1) as nat + s, k)
    }
}

/// A bit-reversed sum of zeros is zero.
pub(crate) proof fn lemma_reversed_zero(x: Seq<int>, w: nat, k: nat, count: nat)
    requires
        count <= x.len(),
        forall|p: int| 0 <= p < count ==> x[p] == 0,
    ensures
        reversed_sum(x, w, k, count) == 0,
    decreases count,
{
    if count > 0 {
        lemma_reversed_zero(x, w, k, (count - 1) as nat);
        lemma_mul_basics(two_pow(w * bit_reverse((count - 1) as nat, k)) as int);
    }
}

/// Adding input `c` to the forward values adds `v[c] * S(r c + s)` to their
/// bit-reversed sum under `2^s`.
proof fn lemma_partial_step(v: Seq<int>, r: nat, s: nat, k: nat, c: nat, q: nat)
    requires
        c < v.len(),
        q <= k,
    ensures
        reversed_sum(partial_transform(v, r, k, c + 1), s, k, q) == reversed_sum(
            partial_transform(v, r, k, c),
            s,
            k,
            q,
        ) + v[c as int] * reversed_sum(ones(k), r * c + s, k, q),
    decreases q,
{
    if q > 0 {
        let i = (q - 1) as nat;
        lemma_partial_step(v, r, s, k, c, i);
        let b = bit_reverse(i, k);
        let a0 = power_sum(v, r * b, c);
        let tc = two_pow((r * b) * c) as int;
        let tb = two_pow(s * b) as int;
        assert(partial_transform(v, r, k, c + 1)[i as int] == a0 + v[c as int] * tc);
        assert(partial_transform(v, r, k, c)[i as int] == a0);
        assert(ones(k)[i as int] == 1);
        lemma_two_pow_add((r * b) * c, s * b);
        assert((r * b) * c + s * b == (r * c + s) * b) by (nonlinear_arith);
        lemma_mul_is_distributive_add_other_way(tb, a0, v[c as int] * tc);
        lemma_mul_is_associative(v[c as int], tc, tb);
        lemma_mul_basics(two_pow((r * c + s) * b) as int);
        lemma_mul_is_distributive_add(
            v[c as int],
            reversed_sum(ones(k), r * c + s, k, i),
            two_pow((r * c + s) * b) as int,
        );
    }
}

/// Swapping the two sums: the bit-reversed sum under `2^s` of the forward
/// values is `sum_i v[i] * S(r i + s)`.
pub(crate) proof fn lemma_swap_sums(v: Seq<int>, r: nat, s: nat, k: nat, c: nat)
    requires
        c <= v.len(),
    ensures
        reversed_sum(partial_transform(v, r, k, c), s, k, k) == weighted_root_sums(v, r, s, k, c),
    decreases c,
{
    if c == 0 {
        lemma_reversed_zero(partial_transform(v, r, k, 0), s, k, k);
    } else {
        let i = (c - 1) as nat;
        lemma_swap_sums(v, r, s, k, i);
        lemma_partial_step(v, r, s, k, i, k);
    }
}

/// Bit-reversed sums of congruent values are congruent.
pub(crate) proof fn lemma_reversed_congruent(a: Seq<int>, b: Seq<int>, w: nat, k: nat, count: nat, m: int)
    requires
        m > 0,
        count <= a.len(),
        count <= b.len(),
        forall|p: int| 0 <= p < count ==> #[trigger] a[p] % m == b[p] % m,
    ensures
        reversed_sum(a, w, k, count) % m == reversed_sum(b, w, k, count) % m,
    decreases count,
{
    if count > 0 {
        let i = (count - 1) as nat;
        lemma_reversed_congruent(a, b, w, k, i, m);
        let t = two_pow(w * bit_reverse(i, k)) as int;
        assert(a[i as int] % m == b[i as int] % m);
        lemma_mul_mod_noop_left(a[i as int], t, m);
        lemma_mul_mod_noop_left(b[i as int], t, m);
        lemma_add_mod_noop(reversed_sum(a, w, k, i), a[i as int] * t, m);
        lemma_add_mod_noop(reversed_sum(b, w, k, i), b[i as int] * t, m);
    }
}

/// Only the diagonal term of `sum_i v[i] * S(r i + (2n - r) j)` survives.
proof fn lemma_weighted_diagonal(v: Seq<int>, r: nat, j: nat, k: nat, c: nat, ml: nat)
    requires
        ml >= 1,
        is_power_of_two(k),
        r < 128 * ml,
        k >= 2 ==> (r * (k / 2)) % (128 * ml) == 64 * ml,
        j < k,
        c <= k,
        c <= v.len(),
    ensures
        weighted_root_sums(v, r, ((128 * ml - r) as nat) * j, k, c) % (fermat_modulus(ml) as int) == (if j < c {
            k * v[j as int]
        } else {
            0int
        }) % (fermat_modulus(ml) as int),
    decreases c,
{
    let f = fermat_modulus(ml) as int;
    lemma_pow_b_pos(ml);
    let s = ((128 * ml - r) as nat) * j;
    if c == 0 {
        lemma_small_mod(0, f as nat);
    } else {
        let i = (c - 1) as nat;
        lemma_weighted_diagonal(v, r, j, k, i, ml);
        lemma_root_sum_cross(r, i, j, k, ml);
        let rs = root_sum(r * i + s, k);
        let prev = weighted_root_sums(v, r, s, k, i);
        lemma_mul_mod_noop_right(v[i as int], rs, f);
        lemma_add_mod_noop(prev, v[i as int] * rs, f);
        if i == j {
            lemma_mul_mod_noop_right(v[i as int], k as int, f);
            lemma_mul_is_commutative(v[i as int], k as int);
            lemma_small_mod(0, f as nat);
            lemma_add_mod_noop(0, k * v[j as int], f);
        } else {
            lemma_mul_basics(v[i as int]);
            lemma_small_mod(0, f as nat);
            let target = if j < i {
                k * v[j as int]
            } else {
                0int
            };
            lemma_add_mod_noop(target, 0, f);
        }
    }
}

/// Transforming back with the inverse root after a forward transform
/// multiplies every value by the transform length `k`: when `x[p]` is
/// frequency `bit_reverse(p)` of `v` under the root `2^r` (what
/// `fft_recursive_dif` leaves in slot `p`) and `y[j]` is the bit-reversed sum
/// of `x` under the inverse root `2^(2n - r)` (what `fft_recursive_dit`
/// leaves in slot `j`), then `y[j] = k * v[j]` modulo `2^n + 1`.
pub proof fn lemma_inverse_transform(v: Seq<int>, x: Seq<int>, y: Seq<int>, k: nat, r: nat, ml: nat)
    requires
        ml >= 1,
        is_power_of_two(k),
        v.len() == k,
        x.len() == k,
        y.len() == k,
        r < 128 * ml,
        k >= 2 ==> (r * (k / 2)) % (128 * ml) == 64 * ml,
        forall|p: int|
            0 <= p < k ==> #[trigger] x[p] % (fermat_modulus(ml) as int) == power_sum(
                v,
                r * bit_reverse(p as nat, k),
                k,
            ) % (fermat_modulus(ml) as int),
        forall|j: int|
            0 <= j < k ==> #[trigger] y[j] % (fermat_modulus(ml) as int) == reversed_sum(
                x,
                ((128 * ml - r) as nat) * (j as nat),
                k,
                k,
            ) % (fermat_modulus(ml) as int),
    ensures
        forall|j: int| 0 <= j < k ==> #[trigger] y[j] % (fermat_modulus(ml) as int) == (k * v[j]) % (fermat_modulus(
            ml,
        ) as int),
{
    let f = fermat_modulus(ml) as int;
    lemma_pow_b_pos(ml);
    let t = partial_transform(v, r, k, k);
    assert forall|p: int| 0 <= p < k implies #[trigger] x[p] % f == t[p] % f by {}
    assert forall|j: int| 0 <= j < k implies #[trigger] y[j] % f == (k * v[j]) % f by {
        let s = ((128 * ml - r) as nat) * (j as nat);
        lemma_reversed_congruent(x, t, s, k, k, f);
        lemma_swap_sums(v, r, s, k, k);
        lemma_weighted_diagonal(v, r, j as nat, k, k, ml);
    }
}

/// Shifting by `s` and then by the inverse shift `2n - s` is the identity
/// modulo `2^n + 1`: when `w` is `v * 2^s`, `w * 2^((2n - s) mod 2n)` is `v`.
/// This is what two calls of `SsaRing::shift` state one after the other.
pub proof fn lemma_shift_round_trip(v: nat, w: nat, s: nat, ml: nat)
    requires
        ml >= 1,
        s < 128 * ml,
        (w as int) % (fermat_modulus(ml) as int) == shifted_residue(v, s, ml),
    ensures
        shifted_residue(w, ((128 * ml - s) as nat) % (128 * ml), ml) == (v as int) % (fermat_modulus(ml) as int),
{
    let f = fermat_modulus(ml) as int;
    lemma_pow_b_pos(ml);
    let p = 128 * ml;
    let t = ((p - s) as nat) % p;
    lemma_two_pow_add(s, t);
    if s == 0 {
        lemma_mod_self_0(p as int);
        assert(t == 0);
        lemma_small_mod(0, p);
        assert(s + t == 0);
    } else {
        lemma_small_mod((p - s) as nat, p);
        lemma_mod_self_0(p as int);
        assert(s + t == p);
    }
    assert((s + t) % p == 0);
    lemma_two_pow_one(ml, s + t);
    let ts = two_pow(s) as int;
    let tt = two_pow(t) as int;
    // w * 2^t = v * 2^s * 2^t = v * 2^(s + t) = v modulo f.
    lemma_mul_mod_noop_left(w as int, tt, f);
    lemma_mul_mod_noop_left((v * two_pow(s)) as int, tt, f);
    lemma_mul_is_associative(v as int, ts, tt);
    lemma_mul_mod_noop_right(v as int, two_pow(s + t) as int, f);
    lemma_mul_basics(v as int);
    lemma_mul_mod_noop_right(v as int, 1int, f);
}

/// A canonical slot shifted by `s` and then by `(2n - s) mod 2n`, each shift
/// leaving a canonical slot with the shifted residue (what two calls of
/// `SsaRing::shift` give), holds its original value again.
pub proof fn lemma_shift_round_trip_exact(x: Seq<Limb>, y: Seq<Limb>, z: Seq<Limb>, s: nat, ml: nat)
    requires
        ml >= 1,
        s < 128 * ml,
        canonical(x, ml),
        canonical(z, ml),
        residue(y, ml) == shifted_residue(slot_value(x, ml), s, ml),
        residue(z, ml) == shifted_residue(slot_value(y, ml), ((128 * ml - s) as nat) % (128 * ml), ml),
    ensures
        slot_value(z, ml) == slot_value(x, ml),
{
    lemma_pow_b_pos(ml);
    lemma_shift_round_trip(slot_value(x, ml), slot_value(y, ml), s, ml);
    lemma_small_mod(slot_value(x, ml), fermat_modulus(ml));
    lemma_small_mod(slot_value(z, ml), fermat_modulus(ml));
}

} // verus!

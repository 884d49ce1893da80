//! Half-bit powers `sqrt(2)^h` and the twist that turns the cyclic
//! convolution of the transform into a negacyclic one.
//!
//! A pre-twist of `theta^i` with `theta^K = -1` on both operands makes slot
//! `j` of their cyclic convolution `theta^j` times slot `j` of the negacyclic
//! convolution of the untwisted sequences.

use crate::limbs::lemma_pow_b_pos;
use crate::num::two_pow;
use crate::ssa::coefficients::half_bit_residue;
use crate::ssa::convolution::cyclic_sum;
use crate::ssa::dft::{lemma_two_pow_negative_one, lemma_two_pow_one};
use crate::ssa::entry::lemma_two_pow_add;
use crate::ssa::ring::fermat_modulus;
use crate::ssa::shift::{lemma_sqrt2_squared, sqrt2_factor};
use vstd::arithmetic::div_mod::*;
use vstd::arithmetic::mul::*;
use vstd::prelude::*;

verus! {

/// `sqrt(2)^h` in `Z/(2^n + 1)`: `2^(h / 2)`, times one `sqrt(2)` for odd `h`.
pub open spec fn half_power(h: nat, ml: nat) -> int {
    two_pow(h / 2) as int * (if h % 2 == 1 {
        sqrt2_factor(ml)
    } else {
        1int
    })
}

/// `sum_{i < c}` of `a[i] * b[j - i]` for `i <= j` and `-a[i] * b[j + k - i]`
/// for `i > j`: slot `j` of the negacyclic convolution of `a` and `b`.
pub open spec fn negacyclic_sum(a: Seq<int>, b: Seq<int>, j: nat, k: nat, c: nat) -> int
    decreases c,
{
    if c == 0 {
        0
    } else {
        let i = (c - 1) as nat;
        negacyclic_sum(a, b, j, k, i) + if i <= j {
            a[i as int] * b[j - i]
        } else {
            -(a[i as int] * b[j + k - i])
        }
    }
}

/// A half-bit residue is the value times the half-bit power.
pub proof fn lemma_half_bit_residue(s: nat, h: nat, ml: nat)
    ensures
        half_bit_residue(s, h, ml) == (s * half_power(h, ml)) % (fermat_modulus(ml) as int),
{
    let f: int = if h % 2 == 1 {
        sqrt2_factor(ml)
    } else {
        1
    };
    lemma_mul_is_associative(s as int, two_pow(h / 2) as int, f);
}

/// `sqrt(2)^a * sqrt(2)^b = sqrt(2)^(a + b)`.
pub proof fn lemma_half_power_add(a: nat, b: nat, ml: nat)
    requires
        ml >= 1,
    ensures
        (half_power(a, ml) * half_power(b, ml)) % (fermat_modulus(ml) as int) == half_power(a + b, ml) % (
        fermat_modulus(ml) as int),
{
    let f = fermat_modulus(ml) as int;
    lemma_pow_b_pos(ml);
    let s = sqrt2_factor(ml);
    let pa = two_pow(a / 2) as int;
    let pb = two_pow(b / 2) as int;
    lemma_two_pow_add(a / 2, b / 2);
    let pab = two_pow(a / 2 + b / 2) as int;
    assert(pab == pa * pb);
    if a % 2 == 1 && b % 2 == 1 {
        assert((a + b) / 2 == a / 2 + b / 2 + 1);
        lemma_two_pow_add(a / 2 + b / 2, 1);
        assert(two_pow(1) == 2) by {
            assert(two_pow(0) == 1);
        }
        assert((pa * s) * (pb * s) == pab * (s * s)) by (nonlinear_arith)
            requires
                pab == pa * pb,
        ;
        lemma_sqrt2_squared(ml);
        lemma_mul_mod_noop_right(pab, s * s, f);
        lemma_mul_mod_noop_right(pab, 2, f);
        lemma_mul_is_commutative(pab, 2);
    } else if a % 2 == 1 {
        assert((a + b) / 2 == a / 2 + b / 2);
        assert((pa * s) * (pb * 1) == pab * s) by (nonlinear_arith)
            requires
                pab == pa * pb,
        ;
    } else if b % 2 == 1 {
        assert((a + b) / 2 == a / 2 + b / 2);
        assert((pa * 1) * (pb * s) == pab * s) by (nonlinear_arith)
            requires
                pab == pa * pb,
        ;
    } else {
        assert((a + b) / 2 == a / 2 + b / 2);
        assert((pa * 1) * (pb * 1) == pab * 1) by (nonlinear_arith)
            requires
                pab == pa * pb,
        ;
    }
}

/// Half-bit powers repeat with period `4n`.
pub proof fn lemma_half_power_period(h: nat, q: nat, ml: nat)
    requires
        ml >= 1,
    ensures
        half_power(h + 256 * ml * q, ml) % (fermat_modulus(ml) as int) == half_power(h, ml) % (fermat_modulus(
            ml,
        ) as int),
{
    let f = fermat_modulus(ml) as int;
    lemma_pow_b_pos(ml);
    let e = 128 * ml * q;
    assert(256 * ml * q == 2 * e) by (nonlinear_arith)
        requires
            e == 128 * ml * q,
    ;
    assert((h + 2 * e) / 2 == h / 2 + e);
    assert((h + 2 * e) % 2 == h % 2);
    lemma_two_pow_add(h / 2, e);
    lemma_mod_multiples_basic((q) as int, (128 * ml) as int);
    assert(e % (128 * ml) == 0) by {
        lemma_mul_is_commutative((128 * ml) as int, q as int);
    }
    lemma_two_pow_one(ml, e);
    let g: int = if h % 2 == 1 {
        sqrt2_factor(ml)
    } else {
        1
    };
    let p = two_pow(h / 2) as int;
    let t = two_pow(e) as int;
    assert(half_power(h + 2 * e, ml) == (p * g) * t) by (nonlinear_arith)
        requires
            two_pow(h / 2 + e) == p * t,
            half_power(h + 2 * e, ml) == two_pow(h / 2 + e) as int * g,
    ;
    lemma_mul_mod_noop_right(p * g, t, f);
    lemma_mul_basics(p * g);
    lemma_mul_mod_noop_right(p * g, 1, f);
}

/// `sqrt(2)^(2n) = 2^n = -1`.
pub proof fn lemma_half_power_half_turn(ml: nat)
    requires
        ml >= 1,
    ensures
        half_power(128 * ml, ml) % (fermat_modulus(ml) as int) == (-1int) % (fermat_modulus(ml) as int),
{
    lemma_small_mod(64 * ml, 128 * ml);
    lemma_two_pow_negative_one(ml, 64 * ml);
}

/// With both operands twisted by `theta^i = sqrt(2)^(i s)` and `theta^k = -1`,
/// slot `j` of the cyclic convolution is `theta^j` times slot `j` of the
/// negacyclic convolution of the untwisted operands.
pub proof fn lemma_twisted_cyclic(
    a: Seq<int>,
    b: Seq<int>,
    x: Seq<int>,
    y: Seq<int>,
    s: nat,
    j: nat,
    k: nat,
    c: nat,
    ml: nat,
)
    requires
        ml >= 1,
        s * k == 128 * ml,
        j < k,
        c <= k,
        a.len() == k,
        b.len() == k,
        x.len() == k,
        y.len() == k,
        forall|i: int|
            0 <= i < k ==> #[trigger] x[i] % (fermat_modulus(ml) as int) == (a[i] * half_power(
                (i as nat) * s,
                ml,
            )) % (fermat_modulus(ml) as int),
        forall|i: int|
            0 <= i < k ==> #[trigger] y[i] % (fermat_modulus(ml) as int) == (b[i] * half_power(
                (i as nat) * s,
                ml,
            )) % (fermat_modulus(ml) as int),
    ensures
        cyclic_sum(x, y, j, k, c) % (fermat_modulus(ml) as int) == (half_power(j * s, ml) * negacyclic_sum(
            a,
            b,
            j,
            k,
            c,
        )) % (fermat_modulus(ml) as int),
    decreases c,
{
    let f = fermat_modulus(ml) as int;
    lemma_pow_b_pos(ml);
    if c == 0 {
        lemma_mul_basics(half_power(j * s, ml));
    } else {
        let i = (c - 1) as nat;
        lemma_twisted_cyclic(a, b, x, y, s, j, k, i, ml);
        let t = (j + k - i) as nat % k;
        let tj = half_power(j * s, ml);
        let prev = negacyclic_sum(a, b, j, k, i);
        // The surviving index and its twist exponent.
        let (l, term) = if i <= j {
            ((j - i) as nat, a[i as int] * b[j - i])
        } else {
            ((j + k - i) as nat, -(a[i as int] * b[j + k - i]))
        };
        assert(t == l) by {
            if i <= j {
                lemma_fundamental_div_mod_converse((j + k - i) as int, k as int, 1, (j - i) as int);
            } else {
                lemma_small_mod((j + k - i) as nat, k);
            }
        }
        let hi = half_power(i * s, ml);
        let hl = half_power(l * s, ml);
        // x[i] * y[l] = a[i] b[l] * sqrt(2)^((i + l) s).
        lemma_mul_mod_noop(x[i as int], y[l as int], f);
        lemma_mul_mod_noop(a[i as int] * hi, b[l as int] * hl, f);
        assert((a[i as int] * hi) * (b[l as int] * hl) == (a[i as int] * b[l as int]) * (hi * hl)) by (
        nonlinear_arith);
        lemma_half_power_add(i * s, l * s, ml);
        lemma_mul_mod_noop_right(a[i as int] * b[l as int], hi * hl, f);
        lemma_mul_mod_noop_right(a[i as int] * b[l as int], half_power(i * s + l * s, ml), f);
        // (i + l) s is j s, or j s plus half a turn.
        let ab = a[i as int] * b[l as int];
        assert((ab * half_power(i * s + l * s, ml)) % f == (term * tj) % f) by {
            if i <= j {
                assert(i * s + l * s == j * s) by (nonlinear_arith)
                    requires
                        l == j - i,
                ;
            } else {
                assert(i * s + l * s == j * s + 128 * ml) by (nonlinear_arith)
                    requires
                        l == j + k - i,
                        s * k == 128 * ml,
                ;
                lemma_half_power_half_turn(ml);
                lemma_half_power_add(j * s, 128 * ml, ml);
                let h = half_power(128 * ml, ml);
                lemma_mul_mod_noop_right(tj, h, f);
                lemma_mul_mod_noop_right(tj, -1, f);
                // sqrt(2)^(j s + 2n) = -sqrt(2)^(j s).
                assert((half_power(j * s + 128 * ml, ml)) % f == (-tj) % f);
                lemma_mul_mod_noop_right(ab, half_power(j * s + 128 * ml, ml), f);
                lemma_mul_mod_noop_right(ab, -tj, f);
                assert(ab * (-tj) == term * tj) by (nonlinear_arith)
                    requires
                        term == -ab,
                ;
            }
        }
        // Accumulate.
        let cprev = cyclic_sum(x, y, j, k, i);
        lemma_add_mod_noop(cprev, x[i as int] * y[l as int], f);
        lemma_add_mod_noop(tj * prev, term * tj, f);
        lemma_mul_is_distributive_add(tj, prev, term);
        lemma_mul_is_commutative(term, tj);
    }
}

/// The inverse twist and scaling recover the negacyclic coefficient: when
/// `w ≡ k * sqrt(2)^(j s) * c` with `k = 2^log` and the shift `sh` makes
/// `sh + j s + 2 log` a whole number of periods, `w * sqrt(2)^sh ≡ c`.
pub proof fn lemma_untwist(w: int, c: int, log: nat, js: nat, sh: nat, ml: nat)
    requires
        ml >= 1,
        (sh + js + 2 * log) % (256 * ml) == 0,
        w % (fermat_modulus(ml) as int) == (two_pow(log) * (half_power(js, ml) * c)) % (fermat_modulus(
            ml,
        ) as int),
    ensures
        (w * half_power(sh, ml)) % (fermat_modulus(ml) as int) == c % (fermat_modulus(ml) as int),
{
    let f = fermat_modulus(ml) as int;
    lemma_pow_b_pos(ml);
    let hs = half_power(sh, ml);
    let hj = half_power(js, ml);
    let k = two_pow(log) as int;
    assert(half_power(2 * log, ml) == k) by {
        assert((2 * log) / 2 == log);
        assert((2 * log) % 2 == 0);
        lemma_mul_basics(k);
    }
    // sqrt(2)^(2 log) * sqrt(2)^(j s) * sqrt(2)^sh = sqrt(2)^(whole periods) = 1.
    lemma_half_power_add(2 * log, js, ml);
    lemma_half_power_add(2 * log + js, sh, ml);
    lemma_mul_mod_noop_left(k * hj, hs, f);
    lemma_mul_mod_noop_left(half_power(2 * log + js, ml), hs, f);
    let total = 2 * log + js + sh;
    let q = total / (256 * ml);
    lemma_fundamental_div_mod(total as int, (256 * ml) as int);
    assert(total == 0 + 256 * ml * q) by (nonlinear_arith)
        requires
            total == (256 * ml) * q + total % (256 * ml),
            total % (256 * ml) == 0,
    ;
    lemma_half_power_period(0, q, ml);
    assert(half_power(0, ml) == 1) by {
        assert(two_pow(0) == 1);
    }
    assert(((k * hj) * hs) % f == 1int % f);
    // w * hs = c * (k hj hs) = c modulo f.
    lemma_mul_mod_noop_left(w, hs, f);
    lemma_mul_mod_noop_left(k * (hj * c), hs, f);
    assert((k * (hj * c)) * hs == c * ((k * hj) * hs)) by (nonlinear_arith);
    lemma_mul_mod_noop_right(c, (k * hj) * hs, f);
    lemma_mul_mod_noop_right(c, 1, f);
    lemma_mul_basics(c);
}

/// Each negacyclic coefficient of operands below `2^cb` has magnitude at
/// most `c * (2^cb - 1)^2`.
pub proof fn lemma_negacyclic_bound(a: Seq<int>, b: Seq<int>, j: nat, k: nat, c: nat, m: int)
    requires
        j < k,
        c <= k,
        a.len() == k,
        b.len() == k,
        m >= 0,
        forall|i: int| 0 <= i < k ==> 0 <= #[trigger] a[i] <= m,
        forall|i: int| 0 <= i < k ==> 0 <= #[trigger] b[i] <= m,
    ensures
        -(c * (m * m)) <= negacyclic_sum(a, b, j, k, c) <= c * (m * m),
    decreases c,
{
    if c > 0 {
        let i = (c - 1) as nat;
        lemma_negacyclic_bound(a, b, j, k, i, m);
        let l = if i <= j {
            (j - i) as nat
        } else {
            (j + k - i) as nat
        };
        let ai = a[i as int];
        let bl = b[l as int];
        assert(0 <= ai * bl <= m * m) by (nonlinear_arith)
            requires
                0 <= ai <= m,
                0 <= bl <= m,
        ;
        assert(c * (m * m) == i * (m * m) + m * m) by (nonlinear_arith)
            requires
                i == c - 1,
        ;
    }
}

} // verus!

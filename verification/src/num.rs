//! Word-size integer helpers the planner's cost model is written in: integer
//! square root, floor logarithm, trailing zeros, powers of two and the
//! saturating and rounding forms of the basic operations.

use vstd::arithmetic::div_mod::*;
use vstd::arithmetic::mul::*;
use vstd::prelude::*;

verus! {

/// `2^e`.
pub open spec fn two_pow(e: nat) -> nat
    decreases e,
{
    if e == 0 {
        1
    } else {
        2 * two_pow((e - 1) as nat)
    }
}

/// `floor(log2(n))` for positive `n`, and zero for zero.
pub open spec fn floor_log2(n: nat) -> nat
    decreases n,
{
    if n <= 1 {
        0
    } else {
        1 + floor_log2(n / 2)
    }
}

/// The number of trailing zero bits of a positive integer.
pub open spec fn trailing_zero_count(n: nat) -> nat
    decreases n,
{
    if n == 0 {
        0
    } else if n % 2 == 1 {
        0
    } else {
        1 + trailing_zero_count(n / 2)
    }
}

/// `r` is the integer square root of `n`.
pub open spec fn is_isqrt(n: nat, r: nat) -> bool {
    r * r <= n && n < (r + 1) * (r + 1)
}

/// The integer square root `floor(sqrt(n))`.
pub open spec fn spec_isqrt(n: nat) -> nat {
    choose|r: nat| is_isqrt(n, r)
}

/// Reads an optional word as an optional natural number.
pub open spec fn opt_nat(o: Option<usize>) -> Option<nat> {
    match o {
        Some(x) => Some(x as nat),
        None => None,
    }
}

/// `min(x, usize::MAX)`: the saturating image of an exact result.
pub open spec fn sat(x: int) -> nat {
    if x > usize::MAX {
        usize::MAX as nat
    } else if x < 0 {
        0
    } else {
        x as nat
    }
}

pub open spec fn spec_max(a: int, b: int) -> int {
    if a >= b {
        a
    } else {
        b
    }
}

pub open spec fn spec_min(a: int, b: int) -> int {
    if a <= b {
        a
    } else {
        b
    }
}

/// `ceil(a / b)` for positive `b`.
pub open spec fn ceil_div(a: nat, b: nat) -> nat {
    if b == 0 {
        0
    } else {
        ((a + b - 1) / (b as int)) as nat
    }
}

pub proof fn lemma_two_pow_pos(e: nat)
    ensures
        two_pow(e) >= 1,
    decreases e,
{
    if e > 0 {
        lemma_two_pow_pos((e - 1) as nat);
    }
}

pub proof fn lemma_two_pow_monotone(a: nat, b: nat)
    requires
        a <= b,
    ensures
        two_pow(a) <= two_pow(b),
    decreases b,
{
    if a < b {
        lemma_two_pow_monotone(a, (b - 1) as nat);
        lemma_two_pow_pos((b - 1) as nat);
    }
}

pub proof fn lemma_two_pow_64()
    ensures
        two_pow(64) == 0x1_0000_0000_0000_0000,
        two_pow(63) == 0x8000_0000_0000_0000,
        two_pow(64) > usize::MAX,
{
    reveal_with_fuel(two_pow, 65);
}

/// `floor_log2(n)` is the exponent of the largest power of two not above `n`.
pub proof fn lemma_floor_log2_bounds(n: nat)
    requires
        n >= 1,
    ensures
        two_pow(floor_log2(n)) <= n < two_pow(floor_log2(n) + 1),
    decreases n,
{
    if n >= 2 {
        lemma_floor_log2_bounds(n / 2);
        assert(two_pow(floor_log2(n)) == 2 * two_pow(floor_log2(n / 2)));
        assert(two_pow(floor_log2(n) + 1) == 2 * two_pow(floor_log2(n / 2) + 1));
    } else {
        assert(two_pow(0) == 1);
        assert(two_pow(1) == 2);
    }
}

/// Any `k` with `2^k <= n < 2^(k+1)` is `floor_log2(n)`.
pub proof fn lemma_floor_log2_unique(n: nat, k: nat)
    requires
        two_pow(k) <= n < two_pow(k + 1),
    ensures
        k == floor_log2(n),
{
    lemma_two_pow_pos(k);
    lemma_floor_log2_bounds(n);
    let f = floor_log2(n);
    if k < f {
        lemma_two_pow_monotone(k + 1, f);
    } else if f < k {
        lemma_two_pow_monotone(f + 1, k);
    }
}

pub proof fn lemma_isqrt_unique(n: nat, r: nat, s: nat)
    requires
        is_isqrt(n, r),
        is_isqrt(n, s),
    ensures
        r == s,
{
    if r < s {
        assert((r + 1) * (r + 1) <= s * s) by (nonlinear_arith)
            requires
                r + 1 <= s,
        ;
    } else if s < r {
        assert((s + 1) * (s + 1) <= r * r) by (nonlinear_arith)
            requires
                s + 1 <= r,
        ;
    }
}

/// `2^e` when it fits a `usize`, otherwise `None`.
pub fn checked_pow2(e: u32) -> (r: Option<usize>)
    ensures
        two_pow(e as nat) <= usize::MAX ==> r == Some(two_pow(e as nat) as usize),
        two_pow(e as nat) > usize::MAX ==> r is None,
{
    let mut value: usize = 1;
    let mut k: u32 = 0;
    while k < e
        invariant
            k <= e,
            value == two_pow(k as nat),
        decreases e - k,
    {
        proof {
            assert(two_pow((k + 1) as nat) == 2 * two_pow(k as nat));
        }
        match value.checked_mul(2) {
            Some(next) => {
                value = next;
            },
            None => {
                proof {
                    lemma_two_pow_monotone((k + 1) as nat, e as nat);
                }
                return None;
            },
        }
        k = k + 1;
    }
    Some(value)
}

/// `floor(log2(n))` of a positive word.
pub fn ilog2(n: usize) -> (r: u32)
    requires
        n > 0,
    ensures
        r == floor_log2(n as nat),
        r < 64,
{
    let mut m = n;
    let mut count: u32 = 0;
    proof {
        lemma_two_pow_64();
        assert(two_pow(0) == 1);
    }
    while m > 1
        invariant
            m >= 1,
            count + floor_log2(m as nat) == floor_log2(n as nat),
            two_pow(count as nat) * m <= n,
            count < 64,
            two_pow(64) > usize::MAX,
        decreases m,
    {
        proof {
            lemma_two_pow_pos(count as nat);
            assert(two_pow((count + 1) as nat) == 2 * two_pow(count as nat));
            lemma_fundamental_div_mod(m as int, 2);
            assert(two_pow((count + 1) as nat) * (m / 2) <= two_pow(count as nat) * m)
                by (nonlinear_arith)
                requires
                    two_pow((count + 1) as nat) == 2 * two_pow(count as nat),
                    m == 2 * (m / 2) + m % 2,
                    m % 2 >= 0,
                    two_pow(count as nat) >= 1,
            ;
            if count + 1 >= 64 {
                lemma_two_pow_monotone(64, (count + 1) as nat);
                assert(two_pow((count + 1) as nat) * (m / 2) >= two_pow((count + 1) as nat))
                    by (nonlinear_arith)
                    requires
                        m / 2 >= 1,
                ;
            }
        }
        m = m / 2;
        count = count + 1;
    }
    count
}

/// The number of trailing zero bits of `n` (`usize::BITS` for zero).
pub fn trailing_zeros(n: usize) -> (r: u32)
    ensures
        n == 0 ==> r == usize::BITS,
        n > 0 ==> r == trailing_zero_count(n as nat),
        n > 0 ==> r < 64,
{
    if n == 0 {
        return usize::BITS;
    }
    let mut m = n;
    let mut count: u32 = 0;
    proof {
        lemma_two_pow_64();
        assert(two_pow(0) == 1);
    }
    while m % 2 == 0
        invariant
            m >= 1,
            count + trailing_zero_count(m as nat) == trailing_zero_count(n as nat),
            two_pow(count as nat) * m <= n,
            count < 64,
            two_pow(64) > usize::MAX,
        decreases m,
    {
        proof {
            lemma_two_pow_pos(count as nat);
            assert(two_pow((count + 1) as nat) == 2 * two_pow(count as nat));
            assert(two_pow((count + 1) as nat) * (m / 2) == two_pow(count as nat) * m)
                by (nonlinear_arith)
                requires
                    two_pow((count + 1) as nat) == 2 * two_pow(count as nat),
                    m % 2 == 0,
            ;
            if count + 1 >= 64 {
                lemma_two_pow_monotone(64, (count + 1) as nat);
                assert(two_pow((count + 1) as nat) * (m / 2) >= two_pow((count + 1) as nat))
                    by (nonlinear_arith)
                    requires
                        m / 2 >= 1,
                ;
            }
        }
        m = m / 2;
        count = count + 1;
    }
    count
}

/// The integer square root `floor(sqrt(n))`.
pub fn isqrt(n: usize) -> (r: usize)
    ensures
        r == spec_isqrt(n as nat),
        is_isqrt(n as nat, r as nat),
{
    let mut lo: u128 = 0;
    let mut hi: u128 = 0x1_0000_0000;
    assert(0x1_0000_0000u128 * 0x1_0000_0000u128 > usize::MAX);
    while hi - lo > 1
        invariant
            lo < hi <= 0x1_0000_0000,
            lo * lo <= n,
            n < hi * hi,
        decreases hi - lo,
    {
        let mid = lo + (hi - lo) / 2;
        proof {
            lemma_mul_upper_bound(mid as int, 0x1_0000_0000, mid as int, 0x1_0000_0000);
        }
        if mid * mid <= n as u128 {
            lo = mid;
        } else {
            hi = mid;
        }
    }
    let r = lo as usize;
    proof {
        assert(is_isqrt(n as nat, r as nat));
        lemma_isqrt_unique(n as nat, r as nat, spec_isqrt(n as nat));
    }
    r
}

/// `min(a * b, usize::MAX)`.
pub fn saturating_mul(a: usize, b: usize) -> (r: usize)
    ensures
        r == sat(a * b),
{
    proof {
        lemma_mul_nonnegative(a as int, b as int);
    }
    match a.checked_mul(b) {
        Some(x) => x,
        None => usize::MAX,
    }
}

/// `ceil(a / b)` for positive `b`.
pub fn div_ceil(a: usize, b: usize) -> (r: usize)
    requires
        b > 0,
    ensures
        r == ceil_div(a as nat, b as nat),
        r * b >= a,
        (r as int) * (b as int) < a + b,
{
    let q = a / b;
    proof {
        lemma_fundamental_div_mod(a as int, b as int);
        lemma_mul_is_commutative(b as int, q as int);
        assert((q + 1) * b == q * b + b) by (nonlinear_arith);
    }
    if a % b == 0 {
        proof {
            lemma_fundamental_div_mod_converse((a + b - 1) as int, b as int, q as int, (b - 1) as int);
        }
        q
    } else {
        proof {
            lemma_div_is_ordered_by_denominator(a as int, 2, b as int);
            lemma_fundamental_div_mod_converse(
                (a + b - 1) as int,
                b as int,
                (q + 1) as int,
                (a % b - 1) as int,
            );
        }
        q + 1
    }
}

} // verus!

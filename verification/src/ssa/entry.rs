//! The tier's entry points: admission, workspace sizing and the one-call
//! product and square.

use crate::limbs::{Limb, lemma_pow_b_pos, lemma_val_bound, lemma_val_prefix_step, pow_b, val};
use crate::num::{lemma_two_pow_64, lemma_two_pow_pos, opt_nat, two_pow};
use crate::kernels::Addition;
use crate::ssa::crt::{SsaCrt, spec_layout_len, spec_sqr_layout_len};
use crate::ssa::prepared::{SsaMultiplicationPlan, spec_mul_plan_scratch};
use crate::ssa::square_plan::{SsaSquaringPlan, spec_sqr_plan_scratch};
use crate::ssa::plan::{
    FftPlan, SsaPlan, halvable, spec_crt_half_width, spec_fft_plan, spec_parallel_slots,
    spec_transform_mul_scratch, spec_transform_sqr_scratch,
};
use crate::ssa::tuning::{SSA_BASE_MODULUS_BITS, SSA_BNM1_BASECASE_LIMBS};
use vstd::arithmetic::div_mod::*;
use vstd::arithmetic::mul::*;
use vstd::prelude::*;

verus! {

/// The number of bits in the binary representation of `x`.
pub open spec fn bit_len(x: nat) -> nat
    decreases x,
{
    if x == 0 {
        0
    } else {
        1 + bit_len(x / 2)
    }
}

/// The number of significant bits of a little-endian limb sequence.
pub open spec fn sig_bits(s: Seq<Limb>) -> nat
    decreases s.len(),
{
    if s.len() == 0 {
        0
    } else if s.last() == 0 {
        sig_bits(s.drop_last())
    } else {
        64 * (s.len() - 1) as nat + bit_len(s.last() as nat)
    }
}

/// The length of `s` without its high zero limbs.
pub open spec fn active_len(s: Seq<Limb>) -> nat
    decreases s.len(),
{
    if s.len() == 0 {
        0
    } else if s.last() == 0 {
        active_len(s.drop_last())
    } else {
        s.len()
    }
}

pub proof fn lemma_two_pow_add(a: nat, b: nat)
    ensures
        two_pow(a + b) == two_pow(a) * two_pow(b),
    decreases a,
{
    if a > 0 {
        lemma_two_pow_add((a - 1) as nat, b);
        assert(two_pow(a + b) == 2 * two_pow((a - 1 + b) as nat));
        lemma_mul_is_associative(2, two_pow((a - 1) as nat) as int, two_pow(b) as int);
    } else {
        assert(two_pow(0) == 1);
        lemma_mul_basics(two_pow(b) as int);
    }
}

/// `2^(64k) = B^k`.
pub proof fn lemma_two_pow_limbs(k: nat)
    ensures
        two_pow(64 * k) == pow_b(k),
    decreases k,
{
    if k > 0 {
        lemma_two_pow_limbs((k - 1) as nat);
        lemma_two_pow_add(64, 64 * (k - 1) as nat);
        lemma_two_pow_64();
        assert(64 + 64 * (k - 1) == 64 * k);
    }
}

/// `x` fits `bit_len(x)` bits and no fewer.
pub proof fn lemma_bit_len_bound(x: nat, k: nat)
    ensures
        x < two_pow(bit_len(x)),
        x < two_pow(k) ==> bit_len(x) <= k,
        x > 0 ==> bit_len(x) >= 1,
    decreases x,
{
    if x > 0 {
        if k > 0 {
            lemma_bit_len_bound(x / 2, (k - 1) as nat);
        } else {
            lemma_bit_len_bound(x / 2, 0);
            lemma_two_pow_pos(bit_len(x / 2));
        }
    }
}

/// The significant bits bound the value, and the active prefix carries all
/// of it.
pub proof fn lemma_sig_bits(s: Seq<Limb>)
    ensures
        val(s) < two_pow(sig_bits(s)),
        sig_bits(s) == 0 <==> val(s) == 0,
        active_len(s) <= s.len(),
        val(s.subrange(0, active_len(s) as int)) == val(s),
        sig_bits(s) > 0 ==> 64 * (active_len(s) - 1) < sig_bits(s) <= 64 * active_len(s),
        sig_bits(s) == 0 ==> active_len(s) == 0,
    decreases s.len(),
{
    if s.len() == 0 {
        lemma_two_pow_pos(0);
        assert(s.subrange(0, 0) =~= s);
    } else {
        let t = s.drop_last();
        let k = (s.len() - 1) as nat;
        lemma_sig_bits(t);
        lemma_pow_b_pos(k);
        if s.last() == 0 {
            assert(val(s) == val(t) + 0 * pow_b(k));
            assert(s.subrange(0, active_len(s) as int) =~= t.subrange(0, active_len(t) as int));
        } else {
            let x = s.last() as nat;
            lemma_bit_len_bound(x, 64);
            lemma_two_pow_64();
            lemma_two_pow_limbs(k);
            lemma_two_pow_add(64 * k, bit_len(x));
            lemma_val_bound(t);
            assert(val(s) == val(t) + x * pow_b(k));
            assert(val(s) < two_pow(bit_len(x)) * pow_b(k)) by (nonlinear_arith)
                requires
                    val(s) == val(t) + x * pow_b(k),
                    val(t) < pow_b(k),
                    x + 1 <= two_pow(bit_len(x)),
            ;
            lemma_mul_is_commutative(two_pow(bit_len(x)) as int, pow_b(k) as int);
            assert(s.subrange(0, s.len() as int) =~= s);
            assert(x * pow_b(k) > 0) by (nonlinear_arith)
                requires
                    x > 0,
                    pow_b(k) > 0,
            ;
        }
    }
}

/// Two operands below `2^sa` and `2^sb` have a product below `2^(sa+sb) - 1`.
pub proof fn lemma_product_below(a: nat, b: nat, sa: nat, sb: nat)
    requires
        a < two_pow(sa),
        b < two_pow(sb),
        sa >= 1,
        sb >= 1,
    ensures
        a * b < two_pow(sa + sb) - 1,
{
    lemma_two_pow_add(sa, sb);
    lemma_two_pow_monotone_one(sa);
    lemma_two_pow_monotone_one(sb);
    let pa = two_pow(sa) as int;
    let pb = two_pow(sb) as int;
    assert(a * b <= (pa - 1) * (pb - 1)) by (nonlinear_arith)
        requires
            0 <= a <= pa - 1,
            0 <= b <= pb - 1,
    ;
    assert((pa - 1) * (pb - 1) < pa * pb - 1) by (nonlinear_arith)
        requires
            pa >= 2,
            pb >= 2,
    ;
}

proof fn lemma_two_pow_monotone_one(e: nat)
    requires
        e >= 1,
    ensures
        two_pow(e) >= 2,
{
    crate::num::lemma_two_pow_monotone(1, e);
    assert(two_pow(1) == 2 * two_pow(0));
}

/// The bit length of one limb.
fn bit_length(x: u64) -> (r: u32)
    ensures
        r == bit_len(x as nat),
        r <= 64,
{
    proof {
        lemma_two_pow_64();
        lemma_bit_len_bound(x as nat, 64);
    }
    let mut m: u64 = x;
    let mut count: u32 = 0;
    while m > 0
        invariant
            count + bit_len(m as nat) == bit_len(x as nat),
            bit_len(x as nat) <= 64,
        decreases m,
    {
        m = m / 2;
        count = count + 1;
    }
    count
}

impl SsaPlan {
    /// The number of significant bits of a limb slice.
    pub fn significant_bits_of_slice(limbs: &[Limb]) -> (bits: usize)
        requires
            limbs@.len() * 64 <= usize::MAX,
        ensures
            bits == sig_bits(limbs@),
    {
        let mut i = limbs.len();
        proof {
            assert(limbs@.subrange(0, limbs@.len() as int) =~= limbs@);
        }
        while i > 0 && limbs[i - 1] == 0
            invariant
                i <= limbs@.len(),
                sig_bits(limbs@.subrange(0, i as int)) == sig_bits(limbs@),
            decreases i,
        {
            proof {
                assert(limbs@.subrange(0, i - 1) =~= limbs@.subrange(0, i as int).drop_last());
            }
            i = i - 1;
        }
        proof {
            assert(limbs@.subrange(0, limbs@.len() as int) =~= limbs@);
        }
        if i == 0 {
            return 0;
        }
        let top = bit_length(limbs[i - 1]);
        proof {
            let p = limbs@.subrange(0, i as int);
            assert(p.last() == limbs@[i - 1]);
        }
        (i - 1) * 64 + top as usize
    }

    /// The CRT half-width covering the widest product two operands of these
    /// widths can produce.
    pub fn crt_half_width_for_operands(len_a: usize, len_b: usize) -> (half_width: Option<usize>)
        ensures
            opt_nat(half_width) == spec_operands_half_width(len_a as nat, len_b as nat),
    {
        let sum = match len_a.checked_add(len_b) {
            Some(s) => s,
            None => {
                return None;
            },
        };
        let product_bits = match sum.checked_mul(64) {
            Some(p) => p,
            None => {
                return None;
            },
        };
        Self::crt_half_width(product_bits)
    }
}

/// The CRT half-width for operand widths, when the product's bit width is
/// representable.
pub open spec fn spec_operands_half_width(len_a: nat, len_b: nat) -> Option<nat> {
    if (len_a + len_b) * 64 > usize::MAX {
        None
    } else {
        spec_crt_half_width((len_a + len_b) * 64)
    }
}

/// A product of this many limbs has a CRT split whose ring width is
/// representable.
pub open spec fn spec_admits_width(product_width: nat) -> bool {
    &&& product_width * 64 <= usize::MAX
    &&& spec_crt_half_width(product_width * 64) is Some
    &&& spec_crt_half_width(product_width * 64).unwrap() * 64 <= usize::MAX
}

/// The workspace one planned product of these widths takes, or zero when the
/// widths admit no plan.
pub open spec fn spec_mul_scratch_len(len_a: nat, len_b: nat, parallelism: nat) -> nat {
    match spec_operands_half_width(len_a, len_b) {
        None => 0,
        Some(h) => if h * 64 > usize::MAX {
            0
        } else {
            let plan = spec_fft_plan(h * 64);
            let ring = spec_transform_mul_scratch(plan, spec_parallel_slots(plan, parallelism));
            if ring == usize::MAX {
                0
            } else {
                spec_layout_len(h, ring)
            }
        },
    }
}

/// The workspace one planned square of this width takes, or zero.
pub open spec fn spec_sqr_scratch_len(len: nat, parallelism: nat) -> nat {
    if len * 2 * 64 > usize::MAX {
        0
    } else {
        match spec_crt_half_width(len * 2 * 64) {
            None => 0,
            Some(h) => if h * 64 > usize::MAX {
                0
            } else {
                let plan = spec_fft_plan(h * 64);
                let ring = spec_transform_sqr_scratch(plan, spec_parallel_slots(plan, parallelism));
                if ring == usize::MAX {
                    0
                } else {
                    spec_sqr_layout_len(h, ring)
                }
            },
        }
    }
}

/// Whether a product of `product_width` limbs has a representable CRT split.
fn admits_product_width(product_width: usize) -> (admitted: bool)
    ensures
        admitted == spec_admits_width(product_width as nat),
{
    let required_bits = match product_width.checked_mul(64) {
        Some(bits) => bits,
        None => {
            return false;
        },
    };
    let half_width = match SsaPlan::crt_half_width(required_bits) {
        Some(h) => h,
        None => {
            return false;
        },
    };
    half_width.checked_mul(64).is_some()
}

/// How the tier picks the transform geometry of its top-level ring.
#[derive(Clone, Copy, Debug, Default, PartialEq, Eq, Structural)]
pub struct TransformChoice {
    /// Run the transform even where the basecase ring product would serve.
    pub force: bool,
    /// Pin the transform exponent instead of letting the planner choose.
    pub exponent: Option<u32>,
}

impl TransformChoice {
    /// Let the planner choose everything.
    pub fn planned() -> (choice: Self)
        ensures
            !choice.force,
            choice.exponent is None,
    {
        TransformChoice { force: false, exponent: None }
    }

    /// Force the transform at the planner's geometry.
    pub fn forced() -> (choice: Self)
        ensures
            choice.force,
            choice.exponent is None,
    {
        TransformChoice { force: true, exponent: None }
    }

    /// Force the transform at a pinned transform exponent.
    pub fn forced_at(exponent: u32) -> (choice: Self)
        ensures
            choice.force,
            choice.exponent == Some(exponent),
    {
        TransformChoice { force: true, exponent: Some(exponent) }
    }
}

/// Namespace for the tier's entry points.
pub struct Ssa;

impl Ssa {
    /// Multiplies `a_limbs` by `b_limbs` into `dst` through the tier and
    /// returns `true`, or returns `false` and leaves `dst` untouched when the
    /// operands admit no plan or `dst` is shorter than `a.len() + b.len()`.
    ///
    /// The workspace is taken from `scratch` when one long enough is given,
    /// and allocated otherwise.
    pub fn try_mul_with_executor(
        dst: &mut [Limb],
        a_limbs: &[Limb],
        b_limbs: &[Limb],
        choice: TransformChoice,
        scratch: Option<&mut [Limb]>,
        parallelism: usize,
    ) -> (done: bool)
        ensures
            final(dst)@.len() == old(dst)@.len(),
            done == (spec_mul_plan_scratch(a_limbs@, b_limbs@, choice, parallelism as nat) is Some
                && old(dst)@.len() >= a_limbs@.len() + b_limbs@.len()),
            done ==> val(final(dst)@) == val(a_limbs@) * val(b_limbs@),
            !done ==> final(dst)@ == old(dst)@,
            scratch matches Some(s) ==> (!done ==> final(s)@ == s@),
    {
        let plan = match SsaMultiplicationPlan::try_new(a_limbs, b_limbs, choice, parallelism) {
            Some(p) => p,
            None => {
                return false;
            },
        };
        if dst.len() < plan.destination_len() {
            return false;
        }
        match scratch {
            Some(workspace) => {
                if workspace.len() >= plan.scratch_len() {
                    plan.run_with_scratch(dst, workspace);
                } else {
                    plan.run_allocating(dst);
                }
            },
            None => {
                plan.run_allocating(dst);
            },
        }
        true
    }

    /// Squares `a_limbs` into `dst` through the tier and returns `true`, or
    /// returns `false` and leaves `dst` untouched when the operand admits no
    /// plan or `dst` is shorter than `2 * a.len()`. An empty operand zeroes
    /// `dst`.
    pub fn try_sqr_with_executor(
        dst: &mut [Limb],
        a_limbs: &[Limb],
        choice: TransformChoice,
        scratch: Option<&mut [Limb]>,
        parallelism: usize,
    ) -> (done: bool)
        ensures
            final(dst)@.len() == old(dst)@.len(),
            done == (a_limbs@.len() == 0 || (spec_sqr_plan_scratch(
                a_limbs@,
                choice,
                parallelism as nat,
            ) is Some && old(dst)@.len() >= 2 * a_limbs@.len())),
            done ==> val(final(dst)@) == val(a_limbs@) * val(a_limbs@),
            a_limbs@.len() == 0 ==> crate::limbs::all_zero(final(dst)@),
            !done ==> final(dst)@ == old(dst)@,
    {
        if a_limbs.len() == 0 {
            Addition::fill_zero(dst);
            proof {
                crate::limbs::lemma_val_zero(dst@);
                assert(val(a_limbs@) == 0);
            }
            return true;
        }
        let plan = match SsaSquaringPlan::try_new(a_limbs, choice, parallelism) {
            Some(p) => p,
            None => {
                return false;
            },
        };
        if dst.len() < plan.destination_len() {
            return false;
        }
        match scratch {
            Some(workspace) => {
                if workspace.len() >= plan.scratch_len() {
                    plan.run_with_scratch(dst, workspace);
                } else {
                    plan.run_allocating(dst);
                }
            },
            None => {
                plan.run_allocating(dst);
            },
        }
        true
    }

    /// Whether operands of these widths are within the tier's reach.
    pub fn admits_mul(len_a: usize, len_b: usize) -> (admitted: bool)
        ensures
            admitted == ((len_a + len_b) <= usize::MAX && spec_admits_width(
                (len_a + len_b) as nat,
            )),
    {
        match len_a.checked_add(len_b) {
            Some(width) => admits_product_width(width),
            None => false,
        }
    }

    /// Whether an operand of this width can be squared by the tier.
    pub fn admits_sqr(len: usize) -> (admitted: bool)
        ensures
            admitted == ((len * 2) <= usize::MAX && spec_admits_width((len * 2) as nat)),
    {
        match len.checked_mul(2) {
            Some(width) => admits_product_width(width),
            None => false,
        }
    }

    /// Workspace one sequential product of these widths takes.
    pub fn mul_scratch_len(len_a: usize, len_b: usize) -> (len: usize)
        ensures
            len == spec_mul_scratch_len(len_a as nat, len_b as nat, 1),
    {
        Self::mul_scratch_len_for_parallelism(len_a, len_b, 1)
    }

    /// Workspace one product of these widths takes when its pointwise stage
    /// may fan out over `parallelism` workers.
    pub fn mul_scratch_len_for_parallelism(len_a: usize, len_b: usize, parallelism: usize) -> (len:
        usize)
        ensures
            len == spec_mul_scratch_len(len_a as nat, len_b as nat, parallelism as nat),
    {
        let half_width = match SsaPlan::crt_half_width_for_operands(len_a, len_b) {
            Some(h) => h,
            None => {
                return 0;
            },
        };
        let ring_bits = match half_width.checked_mul(64) {
            Some(bits) => bits,
            None => {
                return 0;
            },
        };
        let ring_plan = FftPlan::new(ring_bits);
        let ring_scratch = ring_plan.transform_mul_scratch_for_slots(
            ring_plan.parallel_slots(parallelism),
        );
        if ring_scratch == usize::MAX {
            return 0;
        }
        SsaCrt::layout_len(half_width, ring_scratch)
    }

    /// Workspace one sequential square of this width takes.
    pub fn sqr_scratch_len(len: usize) -> (scratch: usize)
        ensures
            scratch == spec_sqr_scratch_len(len as nat, 1),
    {
        Self::sqr_scratch_len_for_parallelism(len, 1)
    }

    /// Workspace one square of this width takes when its pointwise stage may
    /// fan out over `parallelism` workers.
    pub fn sqr_scratch_len_for_parallelism(len: usize, parallelism: usize) -> (scratch: usize)
        ensures
            scratch == spec_sqr_scratch_len(len as nat, parallelism as nat),
    {
        let width = match len.checked_mul(2) {
            Some(w) => w,
            None => {
                return 0;
            },
        };
        let required_bits = match width.checked_mul(64) {
            Some(bits) => bits,
            None => {
                return 0;
            },
        };
        let half_width = match SsaPlan::crt_half_width(required_bits) {
            Some(h) => h,
            None => {
                return 0;
            },
        };
        let ring_bits = match half_width.checked_mul(64) {
            Some(bits) => bits,
            None => {
                return 0;
            },
        };
        let ring_plan = FftPlan::new(ring_bits);
        let ring_scratch = ring_plan.transform_sqr_scratch_for_slots(
            ring_plan.parallel_slots(parallelism),
        );
        if ring_scratch == usize::MAX {
            return 0;
        }
        SsaCrt::sqr_layout_len(half_width, ring_scratch)
    }
}

/// An admitted width pair stays admitted once the operands' significant
/// widths are known: the half-width for their significant bits exists, is no
/// wider than the one for the declared widths, and its ring is a word.
pub proof fn lemma_admitted_pair_stays_admitted(a: Seq<Limb>, b: Seq<Limb>)
    requires
        a.len() + b.len() <= usize::MAX,
        spec_admits_width(a.len() + b.len()),
    ensures
        spec_crt_half_width(sig_bits(a) + sig_bits(b)) is Some,
        spec_crt_half_width(sig_bits(a) + sig_bits(b)).unwrap() <= spec_crt_half_width(
            (a.len() + b.len()) * 64,
        ).unwrap(),
        spec_crt_half_width(sig_bits(a) + sig_bits(b)).unwrap() * 64 <= usize::MAX,
{
    lemma_sig_bits(a);
    lemma_sig_bits(b);
    assert(sig_bits(a) + sig_bits(b) <= (a.len() + b.len()) * 64);
    crate::ssa::plan::lemma_crt_half_width_monotone(sig_bits(a) + sig_bits(b), (a.len() + b.len()) * 64);
}

/// The squaring counterpart of [`lemma_admitted_pair_stays_admitted`].
pub proof fn lemma_admitted_square_stays_admitted(a: Seq<Limb>)
    requires
        a.len() * 2 <= usize::MAX,
        spec_admits_width(a.len() * 2),
    ensures
        spec_crt_half_width(2 * sig_bits(a)) is Some,
        spec_crt_half_width(2 * sig_bits(a)).unwrap() <= spec_crt_half_width(a.len() * 2 * 64).unwrap(),
        spec_crt_half_width(2 * sig_bits(a)).unwrap() * 64 <= usize::MAX,
{
    lemma_sig_bits(a);
    assert(2 * sig_bits(a) <= a.len() * 2 * 64);
    crate::ssa::plan::lemma_crt_half_width_monotone(2 * sig_bits(a), a.len() * 2 * 64);
}

/// The square of an operand and its product with itself, written into
/// destinations of one length, are the same limbs.
pub proof fn lemma_square_agrees_with_product(square: Seq<Limb>, product: Seq<Limb>, a: Seq<Limb>)
    requires
        square.len() == product.len(),
        val(square) == val(a) * val(a),
        val(product) == val(a) * val(a),
    ensures
        square == product,
{
    crate::limbs::lemma_val_injective(square, product);
}

/// The half-width for two operand widths is the least CRT half-width that
/// covers their whole product, `(len_a + len_b) * 64` bits: it covers it,
/// is at least two, halves evenly down to the basecase, and is at most every
/// other covering `blocks * 2^s` with `blocks` fitting the basecase.
pub proof fn lemma_operands_half_width_least(len_a: nat, len_b: nat, blocks: nat, s: nat)
    requires
        (len_a + len_b) * 64 <= usize::MAX,
    ensures
        spec_operands_half_width(len_a, len_b) is Some,
        128 * spec_operands_half_width(len_a, len_b).unwrap() >= (len_a + len_b) * 64,
        spec_operands_half_width(len_a, len_b).unwrap() >= 2,
        halvable(spec_operands_half_width(len_a, len_b).unwrap()),
        1 <= blocks <= SSA_BNM1_BASECASE_LIMBS && blocks * two_pow(s) >= 2 && 128 * (blocks * two_pow(s)) >= (
        len_a + len_b) * 64 && blocks * two_pow(s) <= usize::MAX ==> spec_operands_half_width(len_a, len_b).unwrap()
            <= blocks * two_pow(s),
{
    crate::ssa::plan::lemma_crt_half_width_least((len_a + len_b) * 64, blocks, s);
}

/// Operands whose significant widths select the same CRT half-width as
/// their declared widths do.
pub open spec fn fills_declared_half_width(a: Seq<Limb>, b: Seq<Limb>) -> bool {
    &&& (a.len() + b.len()) * 64 <= usize::MAX
    &&& spec_crt_half_width(sig_bits(a) + sig_bits(b)) == spec_crt_half_width((a.len() + b.len()) * 64)
}

/// The workspace [`Ssa::mul_scratch_len_for_parallelism`] sizes for two
/// operand widths at a parallelism is exactly the workspace of the product
/// plan the planner builds at that parallelism for nonzero operands that
/// fill those widths, when that plan runs the top-level transform (forced,
/// or a ring above the basecase width): the plan exists exactly when the
/// size is a representable nonzero word, and then needs exactly that size.
#[verifier::rlimit(40)]
#[verifier::spinoff_prover]
pub proof fn lemma_mul_scratch_len_is_plan_workspace(
    a: Seq<Limb>,
    b: Seq<Limb>,
    choice: TransformChoice,
    parallelism: nat,
)
    requires
        fills_declared_half_width(a, b),
        sig_bits(a) > 0,
        sig_bits(b) > 0,
        choice.exponent is None,
        choice.force || spec_crt_half_width((a.len() + b.len()) * 64).unwrap() * 64 > SSA_BASE_MODULUS_BITS,
    ensures
        spec_mul_plan_scratch(a, b, choice, parallelism) == if 0 < spec_mul_scratch_len(
            a.len(),
            b.len(),
            parallelism,
        ) < usize::MAX {
            Some(spec_mul_scratch_len(a.len(), b.len(), parallelism))
        } else {
            None
        },
{
    lemma_sig_bits(a);
    lemma_sig_bits(b);
    crate::ssa::plan::lemma_crt_half_width_exists((a.len() + b.len()) * 64);
    assert(sig_bits(a) + sig_bits(b) <= (a.len() + b.len()) * 64);
}

/// The squaring counterpart of [`lemma_mul_scratch_len_is_plan_workspace`]:
/// [`Ssa::sqr_scratch_len_for_parallelism`] is exactly the workspace of the
/// square plan at that parallelism for a nonzero operand that fills its
/// width, when the plan runs the top-level transform.
#[verifier::rlimit(40)]
#[verifier::spinoff_prover]
pub proof fn lemma_sqr_scratch_len_is_plan_workspace(a: Seq<Limb>, choice: TransformChoice, parallelism: nat)
    requires
        a.len() * 2 * 64 <= usize::MAX,
        spec_crt_half_width(2 * sig_bits(a)) == spec_crt_half_width(a.len() * 2 * 64),
        sig_bits(a) > 0,
        choice.force || spec_crt_half_width(a.len() * 2 * 64).unwrap() * 64 > SSA_BASE_MODULUS_BITS,
    ensures
        spec_sqr_plan_scratch(a, choice, parallelism) == if 0 < spec_sqr_scratch_len(a.len(), parallelism)
            < usize::MAX {
            Some(spec_sqr_scratch_len(a.len(), parallelism))
        } else {
            None
        },
{
    lemma_sig_bits(a);
    crate::ssa::plan::lemma_crt_half_width_exists(a.len() * 2 * 64);
    assert(sig_bits(a) * 2 <= a.len() * 2 * 64);
    assert(2 * sig_bits(a) == sig_bits(a) * 2);
}

/// Both CRT layouts grow with the ring workspace they hold.
proof fn lemma_layouts_grow_with_ring(half_width: nat, r1: nat, r2: nat)
    requires
        r1 <= r2,
    ensures
        spec_layout_len(half_width, r1) <= spec_layout_len(half_width, r2),
        spec_sqr_layout_len(half_width, r1) <= spec_sqr_layout_len(half_width, r2),
{
}

/// The workspace [`Ssa::mul_scratch_len_for_parallelism`] sizes grows with
/// the parallelism: a representable size at a parallelism covers every
/// smaller one, which is representable too.
pub proof fn lemma_mul_scratch_len_grows_with_parallelism(len_a: nat, len_b: nat, p1: nat, p2: nat)
    requires
        p1 <= p2,
        spec_mul_scratch_len(len_a, len_b, p2) != 0,
    ensures
        0 < spec_mul_scratch_len(len_a, len_b, p1) <= spec_mul_scratch_len(len_a, len_b, p2),
{
    let h = spec_operands_half_width(len_a, len_b).unwrap();
    let plan = spec_fft_plan(h * 64);
    crate::ssa::plan::lemma_parallel_slots_monotone(plan, p1, p2);
    crate::ssa::plan::lemma_transform_scratch_grows_with_slots(
        plan,
        spec_parallel_slots(plan, p1),
        spec_parallel_slots(plan, p2),
    );
    lemma_layouts_grow_with_ring(
        h,
        spec_transform_mul_scratch(plan, spec_parallel_slots(plan, p1)),
        spec_transform_mul_scratch(plan, spec_parallel_slots(plan, p2)),
    );
}

/// The squaring counterpart of [`lemma_mul_scratch_len_grows_with_parallelism`].
pub proof fn lemma_sqr_scratch_len_grows_with_parallelism(len: nat, p1: nat, p2: nat)
    requires
        p1 <= p2,
        spec_sqr_scratch_len(len, p2) != 0,
    ensures
        0 < spec_sqr_scratch_len(len, p1) <= spec_sqr_scratch_len(len, p2),
{
    let h = spec_crt_half_width(len * 2 * 64).unwrap();
    let plan = spec_fft_plan(h * 64);
    crate::ssa::plan::lemma_parallel_slots_monotone(plan, p1, p2);
    crate::ssa::plan::lemma_transform_scratch_grows_with_slots(
        plan,
        spec_parallel_slots(plan, p1),
        spec_parallel_slots(plan, p2),
    );
    lemma_layouts_grow_with_ring(
        h,
        spec_transform_sqr_scratch(plan, spec_parallel_slots(plan, p1)),
        spec_transform_sqr_scratch(plan, spec_parallel_slots(plan, p2)),
    );
}

/// A basecase ring product's workspace is at most `6 ml + 6` limbs.
proof fn lemma_basecase_scratch_small(mod_bits: nat)
    ensures
        crate::ssa::pointwise::spec_fermat_basecase_scratch_len(mod_bits) <= 6 * (mod_bits / 64) + 6,
{
    let ml = mod_bits / 64;
    let factor = crate::ssa::negacyclic::negacyclic_factor(ml);
    if factor != 0 {
        let b = ml / factor;
        lemma_fundamental_div_mod(ml as int, factor as int);
        assert(b <= ml) by {
            lemma_div_is_ordered_by_denominator(ml as int, 1, factor as int);
        }
    }
}

/// The `B^n - 1` workspace at a half-width up to 256 limbs, where every ring
/// it reaches takes the basecase product, is at most `100 n` limbs.
proof fn lemma_bnm1_scratch_small(n: nat)
    requires
        n <= 256,
    ensures
        crate::ssa::crt::spec_mul_mod_bnm1_scratch_len(n) <= 100 * n,
        crate::ssa::crt::spec_sqr_mod_bnm1_scratch_len(n) <= 100 * n,
    decreases n,
{
    if n > SSA_BNM1_BASECASE_LIMBS {
        let h = n / 2;
        lemma_bnm1_scratch_small(h);
        lemma_basecase_scratch_small(h * 64);
        assert((h * 64) / 64 == h);
        let plan = spec_fft_plan(h * 64);
        assert(plan.modulus_bits == h * 64);
    }
}

/// A planned product whose CRT ring is at most the basecase width always
/// has a plan: every admitted width pair whose significant widths select
/// such a ring is multiplied, whatever the parallelism.
#[verifier::rlimit(40)]
#[verifier::spinoff_prover]
pub proof fn lemma_narrow_planned_product_runs(
    a: Seq<Limb>,
    b: Seq<Limb>,
    choice: TransformChoice,
    parallelism: nat,
)
    requires
        (a.len() + b.len()) * 64 <= usize::MAX,
        !choice.force,
        choice.exponent is None,
        sig_bits(a) == 0 || sig_bits(b) == 0 || spec_crt_half_width(sig_bits(a) + sig_bits(b)).unwrap() * 64
            <= SSA_BASE_MODULUS_BITS,
    ensures
        spec_mul_plan_scratch(a, b, choice, parallelism) is Some,
{
    lemma_sig_bits(a);
    lemma_sig_bits(b);
    if sig_bits(a) > 0 && sig_bits(b) > 0 {
        crate::ssa::plan::lemma_crt_half_width_exists(sig_bits(a) + sig_bits(b));
        let n = spec_crt_half_width(sig_bits(a) + sig_bits(b)).unwrap();
        lemma_basecase_scratch_small(n * 64);
        assert((n * 64) / 64 == n);
        lemma_bnm1_scratch_small(n);
        let plan = spec_fft_plan(n * 64);
        assert(plan.modulus_bits == n * 64);
    }
}

/// The squaring counterpart of [`lemma_narrow_planned_product_runs`].
#[verifier::rlimit(40)]
#[verifier::spinoff_prover]
pub proof fn lemma_narrow_planned_square_runs(a: Seq<Limb>, choice: TransformChoice, parallelism: nat)
    requires
        a.len() * 2 * 64 <= usize::MAX,
        !choice.force,
        sig_bits(a) == 0 || spec_crt_half_width(2 * sig_bits(a)).unwrap() * 64 <= SSA_BASE_MODULUS_BITS,
    ensures
        spec_sqr_plan_scratch(a, choice, parallelism) is Some,
{
    lemma_sig_bits(a);
    if sig_bits(a) > 0 {
        assert(sig_bits(a) * 2 == 2 * sig_bits(a));
        crate::ssa::plan::lemma_crt_half_width_exists(2 * sig_bits(a));
        let n = spec_crt_half_width(2 * sig_bits(a)).unwrap();
        lemma_basecase_scratch_small(n * 64);
        assert((n * 64) / 64 == n);
        lemma_bnm1_scratch_small(n);
        let plan = spec_fft_plan(n * 64);
        assert(plan.modulus_bits == n * 64);
    }
}

} // verus!

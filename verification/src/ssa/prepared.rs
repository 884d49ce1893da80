//! A prepared product: the planning decisions for one pair of operands,
//! made once, and the run that carries them out.

use crate::kernels::Addition;
use crate::limbs::{Limb, lemma_pow_b_add, lemma_pow_b_monotone, lemma_val_bound, pow_b, val};
use crate::num::{ceil_div, div_ceil, lemma_two_pow_monotone, opt_nat, two_pow};
use crate::ssa::crt::{
    SsaCrt, crt_exact_product, lemma_geometry_scratch_covers, lemma_top_layout_fits,
    spec_layout_len, spec_mul_mod_bnm1_scratch_len,
};
use crate::ssa::entry::{
    TransformChoice, active_len, lemma_product_below, lemma_sig_bits, lemma_two_pow_limbs,
    sig_bits,
};
use crate::ssa::plan::{
    FftPlan, SsaPlan, halvable, spec_best_for, spec_crt_half_width, spec_fft_plan,
    spec_forced_geometry, spec_from_geometry, spec_parallel_slots, spec_required_mul_scratch,
    spec_transform_mul_scratch,
};
use crate::ssa::tuning::SSA_BASE_MODULUS_BITS;
use vstd::prelude::*;

verus! {

/// The ring plan a choice selects for a ring of `ring_bits` bits.
pub open spec fn spec_choice_plan(ring_bits: nat, choice: TransformChoice) -> Option<FftPlan> {
    match choice.exponent {
        None => Some(spec_fft_plan(ring_bits)),
        Some(e) => match spec_forced_geometry(ring_bits, e as nat) {
            Some(g) => Some(spec_from_geometry(ring_bits, g)),
            None => None,
        },
    }
}

/// The ring workspace a choice reserves at half-width `n`, or `None` when
/// the choice admits no ring plan or the workspace is unrepresentable.
pub open spec fn spec_ring_scratch(n: nat, choice: TransformChoice, parallelism: nat) -> Option<
    nat,
> {
    match spec_choice_plan(n * 64, choice) {
        None => None,
        Some(plan) => {
            let slots = spec_parallel_slots(plan, parallelism);
            let ring = if choice.force || n * 64 > SSA_BASE_MODULUS_BITS {
                spec_transform_mul_scratch(plan, slots)
            } else {
                spec_required_mul_scratch(plan)
            };
            if ring == usize::MAX {
                None
            } else {
                Some(ring)
            }
        },
    }
}

/// The half-width and workspace of a product whose operands have `sa` and
/// `sb` significant bits, both positive.
pub open spec fn spec_product_geometry(sa: nat, sb: nat, choice: TransformChoice, parallelism: nat) -> Option<
    (nat, nat),
> {
    if sa + sb > usize::MAX {
        None
    } else {
        match spec_crt_half_width(sa + sb) {
            None => None,
            Some(n) => if n * 64 > usize::MAX || n + 1 > usize::MAX {
                None
            } else {
                match spec_ring_scratch(n, choice, parallelism) {
                    None => None,
                    Some(ring) => if spec_layout_len(n, ring) == usize::MAX {
                        None
                    } else {
                        Some((n, spec_layout_len(n, ring)))
                    },
                }
            },
        }
    }
}

/// The workspace a product plan for these operands needs, or `None` when the
/// operands admit no plan.
pub open spec fn spec_mul_plan_scratch(
    a: Seq<Limb>,
    b: Seq<Limb>,
    choice: TransformChoice,
    parallelism: nat,
) -> Option<nat> {
    if a.len() + b.len() > usize::MAX || a.len() * 64 > usize::MAX || b.len() * 64 > usize::MAX {
        None
    } else if sig_bits(a) == 0 || sig_bits(b) == 0 {
        Some(0)
    } else {
        match spec_product_geometry(sig_bits(a), sig_bits(b), choice, parallelism) {
            None => None,
            Some(g) => Some(g.1),
        }
    }
}

/// The ring workspace for a half-width, checked against the word size.
fn ring_scratch_for(n: usize, choice: TransformChoice, parallelism: usize) -> (ring: Option<usize>)
    requires
        n >= 1,
        n * 64 <= usize::MAX,
    ensures
        opt_nat(ring) == spec_ring_scratch(n as nat, choice, parallelism as nat),
        ring is Some ==> ring.unwrap() >= 2 * n,
{
    let ring_bits = n * 64;
    let ring_plan = match choice.exponent {
        None => FftPlan::new(ring_bits),
        Some(exponent) => match FftPlan::try_forced(ring_bits, exponent) {
            Some(plan) => plan,
            None => {
                return None;
            },
        },
    };
    let slots = ring_plan.parallel_slots(parallelism);
    let ring_scratch_len = if choice.force || ring_bits > SSA_BASE_MODULUS_BITS {
        ring_plan.transform_mul_scratch_for_slots(slots)
    } else {
        ring_plan.required_mul_scratch()
    };
    if ring_scratch_len == usize::MAX {
        return None;
    }
    proof {
        match choice.exponent {
            None => {
                lemma_geometry_scratch_covers(n as nat, spec_best_for(ring_bits as nat), slots as nat);
            },
            Some(e) => {
                let g = spec_forced_geometry(ring_bits as nat, e as nat).unwrap();
                lemma_geometry_scratch_covers(n as nat, g, slots as nat);
            },
        }
    }
    Some(ring_scratch_len)
}

/// A product of two operands, planned once.
pub struct SsaMultiplicationPlan<'operands> {
    a_limbs: &'operands [Limb],
    b_limbs: &'operands [Limb],
    result_len: usize,
    product: Option<SsaProductPlan>,
}

/// The decisions behind one nonzero product.
#[derive(Clone, Copy)]
struct SsaProductPlan {
    /// Limbs of the left operand below its top nonzero limb, inclusive.
    active_a_len: usize,
    /// Limbs of the right operand below its top nonzero limb, inclusive.
    active_b_len: usize,
    /// The CRT half-width.
    n: usize,
    /// The workspace the run partitions.
    scratch_len: usize,
}

impl<'operands> SsaMultiplicationPlan<'operands> {
    /// The left operand.
    pub closed spec fn left(&self) -> Seq<Limb> {
        self.a_limbs@
    }

    /// The right operand.
    pub closed spec fn right(&self) -> Seq<Limb> {
        self.b_limbs@
    }

    /// The destination width the plan writes.
    pub closed spec fn spec_destination_len(&self) -> nat {
        self.result_len as nat
    }

    /// The workspace the plan needs.
    pub closed spec fn spec_scratch_len(&self) -> nat {
        match self.product {
            Some(p) => p.scratch_len as nat,
            None => 0,
        }
    }

    /// The plan's decisions are consistent with its operands.
    pub closed spec fn wf(&self) -> bool {
        &&& self.result_len == self.a_limbs@.len() + self.b_limbs@.len()
        &&& match self.product {
            None => val(self.a_limbs@) * val(self.b_limbs@) == 0,
            Some(p) => {
                &&& p.active_a_len <= self.a_limbs@.len()
                &&& p.active_b_len <= self.b_limbs@.len()
                &&& val(self.a_limbs@.subrange(0, p.active_a_len as int)) == val(self.a_limbs@)
                &&& val(self.b_limbs@.subrange(0, p.active_b_len as int)) == val(self.b_limbs@)
                &&& p.n >= 1
                &&& halvable(p.n as nat)
                &&& p.n * 64 <= usize::MAX
                &&& p.active_a_len <= 2 * p.n
                &&& p.active_b_len <= 2 * p.n
                &&& val(self.a_limbs@) * val(self.b_limbs@) < pow_b(2 * p.n as nat) - 1
                &&& spec_mul_mod_bnm1_scratch_len(p.n as nat) < usize::MAX
                &&& p.scratch_len >= (2 * p.n + 1) + 4 * p.n + 2
                &&& p.scratch_len >= (2 * p.n + 1) + 2 * p.n + spec_mul_mod_bnm1_scratch_len(
                    p.n as nat,
                )
            },
        }
    }

    /// Plans the product of `a_limbs` and `b_limbs`, or returns `None` when
    /// their widths are beyond the tier's reach.
    #[verifier::rlimit(60)]
    #[verifier::spinoff_prover]
    pub fn try_new(
        a_limbs: &'operands [Limb],
        b_limbs: &'operands [Limb],
        choice: TransformChoice,
        parallelism: usize,
    ) -> (plan: Option<Self>)
        ensures
            match plan {
                None => spec_mul_plan_scratch(a_limbs@, b_limbs@, choice, parallelism as nat) is None,
                Some(p) => {
                    &&& p.wf()
                    &&& p.left() == a_limbs@
                    &&& p.right() == b_limbs@
                    &&& p.spec_destination_len() == a_limbs@.len() + b_limbs@.len()
                    &&& spec_mul_plan_scratch(a_limbs@, b_limbs@, choice, parallelism as nat)
                        == Some(p.spec_scratch_len())
                },
            },
    {
        let result_len = match a_limbs.len().checked_add(b_limbs.len()) {
            Some(len) => len,
            None => {
                return None;
            },
        };
        if a_limbs.len().checked_mul(64).is_none() || b_limbs.len().checked_mul(64).is_none() {
            return None;
        }
        let sig_a = SsaPlan::significant_bits_of_slice(a_limbs);
        let sig_b = SsaPlan::significant_bits_of_slice(b_limbs);
        proof {
            lemma_sig_bits(a_limbs@);
            lemma_sig_bits(b_limbs@);
        }
        if sig_a == 0 || sig_b == 0 {
            proof {
                assert(val(a_limbs@) * val(b_limbs@) == 0) by (nonlinear_arith)
                    requires
                        val(a_limbs@) == 0 || val(b_limbs@) == 0,
                ;
            }
            return Some(SsaMultiplicationPlan { a_limbs, b_limbs, result_len, product: None });
        }
        let geometry = match product_geometry(sig_a, sig_b, choice, parallelism) {
            Some(g) => g,
            None => {
                return None;
            },
        };
        let (n, scratch_len) = geometry;
        let active_a_len = div_ceil(sig_a, 64);
        let active_b_len = div_ceil(sig_b, 64);
        proof {
            assert(active_a_len == active_len(a_limbs@));
            assert(active_b_len == active_len(b_limbs@));
            lemma_product_below(val(a_limbs@), val(b_limbs@), sig_a as nat, sig_b as nat);
            lemma_two_pow_monotone((sig_a + sig_b) as nat, 64 * (2 * n) as nat);
            lemma_two_pow_limbs(2 * n as nat);
        }
        Some(
            SsaMultiplicationPlan {
                a_limbs,
                b_limbs,
                result_len,
                product: Some(
                    SsaProductPlan { active_a_len, active_b_len, n, scratch_len },
                ),
            },
        )
    }

    /// The number of destination limbs the run writes.
    pub fn destination_len(&self) -> (len: usize)
        ensures
            len == self.spec_destination_len(),
    {
        self.result_len
    }

    /// The number of workspace limbs the run needs.
    pub fn scratch_len(&self) -> (len: usize)
        ensures
            len == self.spec_scratch_len(),
    {
        match self.product {
            Some(product) => product.scratch_len,
            None => 0,
        }
    }

    /// Writes the product into `dst`, allocating the workspace.
    pub fn run_allocating(&self, dst: &mut [Limb])
        requires
            self.wf(),
            old(dst)@.len() >= self.spec_destination_len(),
        ensures
            final(dst)@.len() == old(dst)@.len(),
            val(final(dst)@) == val(self.left()) * val(self.right()),
    {
        let mut scratch = zeroed(self.scratch_len());
        self.run_with_scratch(dst, scratch.as_mut_slice());
    }

    /// Writes the product into `dst`, using the first
    /// [`scratch_len`](Self::scratch_len) limbs of `scratch` as workspace.
    pub fn run_with_scratch(&self, dst: &mut [Limb], scratch: &mut [Limb])
        requires
            self.wf(),
            old(dst)@.len() >= self.spec_destination_len(),
            old(scratch)@.len() >= self.spec_scratch_len(),
        ensures
            final(dst)@.len() == old(dst)@.len(),
            final(scratch)@.len() == old(scratch)@.len(),
            val(final(dst)@) == val(self.left()) * val(self.right()),
    {
        let ghost ab = val(self.a_limbs@) * val(self.b_limbs@);
        proof {
            let la = self.a_limbs@.len();
            let lb = self.b_limbs@.len();
            lemma_val_bound(self.a_limbs@);
            lemma_val_bound(self.b_limbs@);
            lemma_pow_b_add(la, lb);
            lemma_pow_b_monotone(la + lb, dst@.len());
            assert(ab < pow_b(la) * pow_b(lb)) by (nonlinear_arith)
                requires
                    val(self.a_limbs@) < pow_b(la),
                    val(self.b_limbs@) < pow_b(lb),
                    ab == val(self.a_limbs@) * val(self.b_limbs@),
            ;
            crate::limbs::lemma_pow_b_pos(dst@.len());
        }
        match self.product {
            None => {
                Addition::fill_zero(dst);
                proof {
                    crate::limbs::lemma_val_zero(dst@);
                }
            },
            Some(product) => {
                let active_a = &self.a_limbs[0..product.active_a_len];
                let active_b = &self.b_limbs[0..product.active_b_len];
                let (planned, _) = scratch.split_at_mut(product.scratch_len);
                proof {
                    assert(active_a@ =~= self.a_limbs@.subrange(0, product.active_a_len as int));
                    assert(active_b@ =~= self.b_limbs@.subrange(0, product.active_b_len as int));
                }
                crt_exact_product(dst, active_a, active_b, product.n, planned);
                proof {
                    vstd::arithmetic::div_mod::lemma_small_mod(ab, pow_b(dst@.len()));
                }
            },
        }
    }
}

/// Chooses the half-width and workspace for operands of `sig_a` and `sig_b`
/// significant bits.
fn product_geometry(sig_a: usize, sig_b: usize, choice: TransformChoice, parallelism: usize) -> (g:
    Option<(usize, usize)>)
    ensures
        match g {
            None => spec_product_geometry(sig_a as nat, sig_b as nat, choice, parallelism as nat) is None,
            Some(p) => {
                &&& spec_product_geometry(sig_a as nat, sig_b as nat, choice, parallelism as nat)
                    == Some((p.0 as nat, p.1 as nat))
                &&& p.0 >= 1
                &&& halvable(p.0 as nat)
                &&& p.0 * 64 <= usize::MAX
                &&& 128 * p.0 >= sig_a + sig_b
                &&& spec_mul_mod_bnm1_scratch_len(p.0 as nat) < usize::MAX
                &&& p.1 >= (2 * p.0 + 1) + 4 * p.0 + 2
                &&& p.1 >= (2 * p.0 + 1) + 2 * p.0 + spec_mul_mod_bnm1_scratch_len(p.0 as nat)
            },
        },
{
    let required_bits = match sig_a.checked_add(sig_b) {
        Some(bits) => bits,
        None => {
            return None;
        },
    };
    let n = match SsaPlan::crt_half_width(required_bits) {
        Some(h) => h,
        None => {
            return None;
        },
    };
    if n.checked_mul(64).is_none() || n.checked_add(1).is_none() {
        return None;
    }
    let ring = match ring_scratch_for(n, choice, parallelism) {
        Some(r) => r,
        None => {
            return None;
        },
    };
    let scratch_len = SsaCrt::layout_len(n, ring);
    if scratch_len == usize::MAX {
        return None;
    }
    proof {
        lemma_top_layout_fits(n as nat, ring as nat);
    }
    Some((n, scratch_len))
}

/// A fresh workspace of `len` zero limbs.
pub(crate) fn zeroed(len: usize) -> (v: Vec<Limb>)
    ensures
        v@.len() == len,
{
    let mut v: Vec<Limb> = Vec::new();
    let mut i: usize = 0;
    while i < len
        invariant
            v@.len() == i,
            i <= len,
        decreases len - i,
    {
        v.push(0);
        i = i + 1;
    }
    v
}

} // verus!

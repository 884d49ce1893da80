//! A prepared square: the planning decisions for one operand, made once,
//! and the run that carries them out.

use crate::kernels::Addition;
use crate::limbs::{Limb, lemma_pow_b_add, lemma_pow_b_monotone, lemma_val_bound, pow_b, val};
use crate::num::{div_ceil, lemma_two_pow_monotone, opt_nat};
use crate::ssa::crt::{
    SsaCrt, crt_exact_square, lemma_geometry_scratch_covers, lemma_top_sqr_layout_fits,
    spec_sqr_layout_len, spec_sqr_mod_bnm1_scratch_len,
};
use crate::ssa::entry::{
    TransformChoice, active_len, lemma_product_below, lemma_sig_bits, lemma_two_pow_limbs,
    sig_bits,
};
use crate::ssa::plan::{
    FftPlan, SsaPlan, halvable, spec_best_for, spec_crt_half_width, spec_fft_plan,
    spec_parallel_slots, spec_required_sqr_scratch, spec_transform_sqr_scratch,
};
use crate::ssa::prepared::zeroed;
use crate::ssa::tuning::SSA_BASE_MODULUS_BITS;
use vstd::prelude::*;

verus! {

/// The ring workspace a square reserves at half-width `n`; squaring always
/// takes the planner's geometry.
pub open spec fn spec_sqr_ring_scratch(n: nat, force: bool, parallelism: nat) -> Option<nat> {
    let plan = spec_fft_plan(n * 64);
    let workers: nat = if parallelism == 0 { 1 } else { parallelism };
    let slots = spec_parallel_slots(plan, workers);
    let ring = if force || n * 64 > SSA_BASE_MODULUS_BITS {
        spec_transform_sqr_scratch(plan, slots)
    } else {
        spec_required_sqr_scratch(plan)
    };
    if ring == usize::MAX {
        None
    } else {
        Some(ring)
    }
}

/// The half-width and workspace of a square whose operand has `sa > 0`
/// significant bits.
pub open spec fn spec_square_geometry(sa: nat, force: bool, parallelism: nat) -> Option<(nat, nat)> {
    if sa * 2 > usize::MAX {
        None
    } else {
        match spec_crt_half_width(sa * 2) {
            None => None,
            Some(n) => if n * 64 > usize::MAX || n + 1 > usize::MAX {
                None
            } else {
                match spec_sqr_ring_scratch(n, force, parallelism) {
                    None => None,
                    Some(ring) => if spec_sqr_layout_len(n, ring) == usize::MAX {
                        None
                    } else {
                        Some((n, spec_sqr_layout_len(n, ring)))
                    },
                }
            },
        }
    }
}

/// The workspace a square plan for this operand needs, or `None` when the
/// operand admits no plan.
pub open spec fn spec_sqr_plan_scratch(a: Seq<Limb>, choice: TransformChoice, parallelism: nat) -> Option<
    nat,
> {
    if a.len() * 2 > usize::MAX || a.len() * 64 > usize::MAX {
        None
    } else if sig_bits(a) == 0 {
        Some(0)
    } else {
        match spec_square_geometry(sig_bits(a), choice.force, parallelism) {
            None => None,
            Some(g) => Some(g.1),
        }
    }
}

/// The ring workspace of a square at a half-width.
fn sqr_ring_scratch_for(n: usize, force: bool, parallelism: usize) -> (ring: Option<usize>)
    requires
        n >= 1,
        n * 64 <= usize::MAX,
    ensures
        opt_nat(ring) == spec_sqr_ring_scratch(n as nat, force, parallelism as nat),
        ring is Some ==> ring.unwrap() >= 2 * n,
{
    let ring_bits = n * 64;
    let ring_plan = FftPlan::new(ring_bits);
    let workers = if parallelism == 0 {
        1
    } else {
        parallelism
    };
    let slots = ring_plan.parallel_slots(workers);
    let ring_scratch_len = if force || ring_bits > SSA_BASE_MODULUS_BITS {
        ring_plan.transform_sqr_scratch_for_slots(slots)
    } else {
        ring_plan.required_sqr_scratch()
    };
    if ring_scratch_len == usize::MAX {
        return None;
    }
    proof {
        lemma_geometry_scratch_covers(n as nat, spec_best_for(ring_bits as nat), slots as nat);
    }
    Some(ring_scratch_len)
}

/// Chooses the half-width and workspace for an operand of `sig_a`
/// significant bits.
fn square_geometry(sig_a: usize, force: bool, parallelism: usize) -> (g: Option<(usize, usize)>)
    ensures
        match g {
            None => spec_square_geometry(sig_a as nat, force, parallelism as nat) is None,
            Some(p) => {
                &&& spec_square_geometry(sig_a as nat, force, parallelism as nat) == Some(
                    (p.0 as nat, p.1 as nat),
                )
                &&& p.0 >= 1
                &&& halvable(p.0 as nat)
                &&& p.0 * 64 <= usize::MAX
                &&& 128 * p.0 >= 2 * sig_a
                &&& spec_sqr_mod_bnm1_scratch_len(p.0 as nat) < usize::MAX
                &&& p.1 >= (2 * p.0 + 1) + 3 * p.0 + 1
                &&& p.1 >= (2 * p.0 + 1) + p.0 + spec_sqr_mod_bnm1_scratch_len(p.0 as nat)
            },
        },
{
    let required_bits = match sig_a.checked_mul(2) {
        Some(bits) => bits,
        None => {
            return None;
        },
    };
    let n = match SsaPlan::crt_half_width(required_bits) {
        Some(h) => h,
        None => {
            return None;
        },
    };
    if n.checked_mul(64).is_none() || n.checked_add(1).is_none() {
        return None;
    }
    let ring = match sqr_ring_scratch_for(n, force, parallelism) {
        Some(r) => r,
        None => {
            return None;
        },
    };
    let scratch_len = SsaCrt::sqr_layout_len(n, ring);
    if scratch_len == usize::MAX {
        return None;
    }
    proof {
        lemma_top_sqr_layout_fits(n as nat, ring as nat);
    }
    Some((n, scratch_len))
}

/// A square of one operand, planned once.
pub struct SsaSquaringPlan<'operand> {
    a_limbs: &'operand [Limb],
    result_len: usize,
    square: Option<SsaSquareGeometry>,
}

/// The decisions behind one nonzero square.
#[derive(Clone, Copy)]
struct SsaSquareGeometry {
    /// Limbs of the operand below its top nonzero limb, inclusive.
    active_a_len: usize,
    /// The CRT half-width.
    n: usize,
    /// The workspace the run partitions.
    scratch_len: usize,
}

impl<'operand> SsaSquaringPlan<'operand> {
    /// The operand.
    pub closed spec fn operand(&self) -> Seq<Limb> {
        self.a_limbs@
    }

    /// The destination width the plan writes.
    pub closed spec fn spec_destination_len(&self) -> nat {
        self.result_len as nat
    }

    /// The workspace the plan needs.
    pub closed spec fn spec_scratch_len(&self) -> nat {
        match self.square {
            Some(p) => p.scratch_len as nat,
            None => 0,
        }
    }

    /// The plan's decisions are consistent with its operand.
    pub closed spec fn wf(&self) -> bool {
        &&& self.result_len == 2 * self.a_limbs@.len()
        &&& match self.square {
            None => val(self.a_limbs@) == 0,
            Some(p) => {
                &&& p.active_a_len <= self.a_limbs@.len()
                &&& val(self.a_limbs@.subrange(0, p.active_a_len as int)) == val(self.a_limbs@)
                &&& p.n >= 1
                &&& halvable(p.n as nat)
                &&& p.n * 64 <= usize::MAX
                &&& p.active_a_len <= 2 * p.n
                &&& val(self.a_limbs@) * val(self.a_limbs@) < pow_b(2 * p.n as nat) - 1
                &&& spec_sqr_mod_bnm1_scratch_len(p.n as nat) < usize::MAX
                &&& p.scratch_len >= (2 * p.n + 1) + 3 * p.n + 1
                &&& p.scratch_len >= (2 * p.n + 1) + p.n + spec_sqr_mod_bnm1_scratch_len(p.n as nat)
            },
        }
    }

    /// Plans the square of `a_limbs`, or returns `None` when its width is
    /// beyond the tier's reach.
    pub fn try_new(a_limbs: &'operand [Limb], choice: TransformChoice, parallelism: usize) -> (plan:
        Option<Self>)
        ensures
            match plan {
                None => spec_sqr_plan_scratch(a_limbs@, choice, parallelism as nat) is None,
                Some(p) => {
                    &&& p.wf()
                    &&& p.operand() == a_limbs@
                    &&& p.spec_destination_len() == 2 * a_limbs@.len()
                    &&& spec_sqr_plan_scratch(a_limbs@, choice, parallelism as nat) == Some(
                        p.spec_scratch_len(),
                    )
                },
            },
    {
        let result_len = match a_limbs.len().checked_mul(2) {
            Some(len) => len,
            None => {
                return None;
            },
        };
        if a_limbs.len().checked_mul(64).is_none() {
            return None;
        }
        let sig_a = SsaPlan::significant_bits_of_slice(a_limbs);
        proof {
            lemma_sig_bits(a_limbs@);
        }
        if sig_a == 0 {
            return Some(SsaSquaringPlan { a_limbs, result_len, square: None });
        }
        let geometry = match square_geometry(sig_a, choice.force, parallelism) {
            Some(g) => g,
            None => {
                return None;
            },
        };
        let (n, scratch_len) = geometry;
        let active_a_len = div_ceil(sig_a, 64);
        proof {
            assert(active_a_len == active_len(a_limbs@));
            lemma_product_below(val(a_limbs@), val(a_limbs@), sig_a as nat, sig_a as nat);
            lemma_two_pow_monotone((sig_a + sig_a) as nat, 64 * (2 * n) as nat);
            lemma_two_pow_limbs(2 * n as nat);
        }
        Some(
            SsaSquaringPlan {
                a_limbs,
                result_len,
                square: Some(SsaSquareGeometry { active_a_len, n, scratch_len }),
            },
        )
    }

    /// The number of destination limbs the run writes.
    pub fn destination_len(&self) -> (len: usize)
        ensures
            len == self.spec_destination_len(),
    {
        self.result_len
    }

    /// The number of workspace limbs the run needs.
    pub fn scratch_len(&self) -> (len: usize)
        ensures
            len == self.spec_scratch_len(),
    {
        match self.square {
            Some(square) => square.scratch_len,
            None => 0,
        }
    }

    /// Writes the square into `dst`, using the first
    /// [`scratch_len`](Self::scratch_len) limbs of `scratch` as workspace.
    pub fn run_with_scratch(&self, dst: &mut [Limb], scratch: &mut [Limb])
        requires
            self.wf(),
            old(dst)@.len() >= self.spec_destination_len(),
            old(scratch)@.len() >= self.spec_scratch_len(),
        ensures
            final(dst)@.len() == old(dst)@.len(),
            final(scratch)@.len() == old(scratch)@.len(),
            val(final(dst)@) == val(self.operand()) * val(self.operand()),
    {
        let ghost aa = val(self.a_limbs@) * val(self.a_limbs@);
        proof {
            let la = self.a_limbs@.len();
            lemma_val_bound(self.a_limbs@);
            lemma_pow_b_add(la, la);
            lemma_pow_b_monotone(la + la, dst@.len());
            assert(aa < pow_b(la) * pow_b(la)) by (nonlinear_arith)
                requires
                    val(self.a_limbs@) < pow_b(la),
                    aa == val(self.a_limbs@) * val(self.a_limbs@),
            ;
            crate::limbs::lemma_pow_b_pos(dst@.len());
        }
        match self.square {
            None => {
                Addition::fill_zero(dst);
                proof {
                    crate::limbs::lemma_val_zero(dst@);
                    assert(aa == 0) by (nonlinear_arith)
                        requires
                            val(self.a_limbs@) == 0,
                            aa == val(self.a_limbs@) * val(self.a_limbs@),
                    ;
                }
            },
            Some(square) => {
                let active_a = &self.a_limbs[0..square.active_a_len];
                let (planned, _) = scratch.split_at_mut(square.scratch_len);
                proof {
                    assert(active_a@ =~= self.a_limbs@.subrange(0, square.active_a_len as int));
                }
                crt_exact_square(dst, active_a, square.n, planned);
                proof {
                    vstd::arithmetic::div_mod::lemma_small_mod(aa, pow_b(dst@.len()));
                }
            },
        }
    }

    /// Writes the square into `dst`, allocating the workspace.
    pub fn run_allocating(&self, dst: &mut [Limb])
        requires
            self.wf(),
            old(dst)@.len() >= self.spec_destination_len(),
        ensures
            final(dst)@.len() == old(dst)@.len(),
            val(final(dst)@) == val(self.operand()) * val(self.operand()),
    {
        let mut scratch = zeroed(self.scratch_len());
        self.run_with_scratch(dst, scratch.as_mut_slice());
    }
}

} // verus!

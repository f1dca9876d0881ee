//! Choosing the ternary kernel for the CPU at hand.
use vstd::prelude::*;
use crate::simd::avx512_bw::{self as avx512, mask_row, row_words, ternary_dot_sum, MAX_KERNEL_WEIGHTS};

verus! {

/// The SIMD tiers, in increasing order of capability.
#[derive(Debug, Clone, Copy, PartialEq, Eq, Structural, PartialOrd, Ord)]
pub enum SimdTier {
    Scalar,
    Avx2,
    /// 512-bit without VNNI.
    Avx512Bw,
    /// AVX-512 with a signed i8 dot product in hardware.
    Avx512Vnni,
    ArmNeon,
    /// Scalable vectors, width detected at run time.
    ArmSve,
}

/// The CPU features the kernel choice depends on, as detected at run time.
#[derive(Debug, Clone, Copy)]
pub struct CpuFeatures {
    pub avx512f: bool,
    pub avx512bw: bool,
}

/// The kernels of one tier.
#[derive(Debug, Clone, Copy)]
pub struct KernelVtable {
    pub tier: SimdTier,
}

/// The tier `detect_best_kernel` picks: AVX-512BW when the CPU has AVX-512F
/// and AVX-512BW, otherwise scalar.
pub open spec fn spec_best_tier(f: CpuFeatures) -> SimdTier {
    if f.avx512f && f.avx512bw {
        SimdTier::Avx512Bw
    } else {
        SimdTier::Scalar
    }
}

fn detect_best_kernel(features: CpuFeatures) -> (v: KernelVtable)
    ensures
        v.tier == spec_best_tier(features),
{
    if features.avx512f && features.avx512bw {
        return KernelVtable { tier: SimdTier::Avx512Bw };
    }
    KernelVtable { tier: SimdTier::Scalar }
}

/// The kernels for a CPU with `features`.
pub fn vtable(features: CpuFeatures) -> (v: KernelVtable)
    ensures
        v.tier == spec_best_tier(features),
{
    detect_best_kernel(features)
}

/// The scalar tier's dot product: the portable kernel.
fn scalar_fallback_dot(acts: &[i8], pos_mask: &[u64], neg_mask: &[u64], n_weights: usize) -> (r:
    i32)
    requires
        n_weights <= MAX_KERNEL_WEIGHTS,
        acts@.len() >= (n_weights / 64) * 64,
        pos_mask@.len() >= n_weights / 64,
        neg_mask@.len() >= n_weights / 64,
    ensures
        r == ternary_dot_sum(acts@, pos_mask@, neg_mask@, (n_weights / 64) * 64),
{
    avx512::ternary_dot(acts, pos_mask, neg_mask, n_weights)
}

/// The scalar tier's batched kernel: the portable one.
fn scalar_fallback_batch(
    acts: &[i8],
    pos_masks: &[u64],
    neg_masks: &[u64],
    n_weights: usize,
    m_rows: usize,
    out: &mut [i32],
)
    requires
        n_weights <= MAX_KERNEL_WEIGHTS,
        acts@.len() >= (n_weights / 64) * 64,
        m_rows * row_words(n_weights as int) <= pos_masks@.len(),
        m_rows * row_words(n_weights as int) <= neg_masks@.len(),
        m_rows <= old(out)@.len(),
    ensures
        final(out)@.len() == old(out)@.len(),
        forall|r: int|
            0 <= r < m_rows ==> #[trigger] final(out)@[r] == ternary_dot_sum(
                acts@,
                mask_row(pos_masks@, r, row_words(n_weights as int)),
                mask_row(neg_masks@, r, row_words(n_weights as int)),
                (n_weights / 64) * 64,
            ),
        forall|r: int| m_rows <= r < old(out)@.len() ==> #[trigger] final(out)@[r] == old(out)@[r],
{
    avx512::ternary_dot_batch(acts, pos_masks, neg_masks, n_weights, m_rows, out)
}

impl KernelVtable {
    /// The tier's ternary dot product: the bitmask dot product over the
    /// `n_weights / 64` full blocks, the same on every tier.
    pub fn ternary_dot(&self, acts: &[i8], pos_mask: &[u64], neg_mask: &[u64], n_weights: usize) -> (r: i32)
        requires
            n_weights <= MAX_KERNEL_WEIGHTS,
            acts@.len() >= (n_weights / 64) * 64,
            pos_mask@.len() >= n_weights / 64,
            neg_mask@.len() >= n_weights / 64,
        ensures
            r == ternary_dot_sum(acts@, pos_mask@, neg_mask@, (n_weights / 64) * 64),
    {
        match self.tier {
            SimdTier::Avx512Bw => avx512::ternary_dot(acts, pos_mask, neg_mask, n_weights),
            _ => scalar_fallback_dot(acts, pos_mask, neg_mask, n_weights),
        }
    }

    /// The tier's batched kernel: one dot product per row of the row-major
    /// masks, written to `out[row]` for the first `m_rows` rows; the rest of
    /// `out` is left as it was.
    pub fn ternary_dot_batch(
        &self,
        acts: &[i8],
        pos_masks: &[u64],
        neg_masks: &[u64],
        n_weights: usize,
        m_rows: usize,
        out: &mut [i32],
    )
        requires
            n_weights <= MAX_KERNEL_WEIGHTS,
            acts@.len() >= (n_weights / 64) * 64,
            m_rows * row_words(n_weights as int) <= pos_masks@.len(),
            m_rows * row_words(n_weights as int) <= neg_masks@.len(),
            m_rows <= old(out)@.len(),
        ensures
            final(out)@.len() == old(out)@.len(),
            forall|r: int|
                0 <= r < m_rows ==> #[trigger] final(out)@[r] == ternary_dot_sum(
                    acts@,
                    mask_row(pos_masks@, r, row_words(n_weights as int)),
                    mask_row(neg_masks@, r, row_words(n_weights as int)),
                    (n_weights / 64) * 64,
                ),
            forall|r: int| m_rows <= r < old(out)@.len() ==> #[trigger] final(out)@[r] == old(out)@[r],
    {
        match self.tier {
            SimdTier::Avx512Bw => avx512::ternary_dot_batch(
                acts,
                pos_masks,
                neg_masks,
                n_weights,
                m_rows,
                out,
            ),
            _ => scalar_fallback_batch(acts, pos_masks, neg_masks, n_weights, m_rows, out),
        }
    }
}

} // verus!

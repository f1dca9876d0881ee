//! The ternary dot-product kernel of the AVX-512 tier, written portably.
//!
//! Weights are bit-packed into two masks: bit `j` of word `i` of the
//! positive mask means weight `64 * i + j` is +1, of the negative mask that
//! it is -1.  The dot product with an `i8` activation vector adds the
//! activations under positive bits and subtracts those under negative bits,
//! 64 weights per block.
use vstd::prelude::*;
use crate::bits::bit_set;

verus! {

/// Weights one kernel call may cover without its `i32` sum overflowing.
pub const MAX_KERNEL_WEIGHTS: usize = 16777215;

/// The ternary value of weight `k`: +1, -1, or 0 (also when both bits are set).
pub open spec fn mask_sign(pos: Seq<u64>, neg: Seq<u64>, k: int) -> int {
    (if bit_set(pos[k / 64], (k % 64) as u64) {
        1int
    } else {
        0int
    }) - (if bit_set(neg[k / 64], (k % 64) as u64) {
        1int
    } else {
        0int
    })
}

/// The dot product of the first `n` weights with the activations.
pub open spec fn ternary_dot_sum(acts: Seq<i8>, pos: Seq<u64>, neg: Seq<u64>, n: int) -> int
    decreases n,
{
    if n <= 0 {
        0
    } else {
        ternary_dot_sum(acts, pos, neg, n - 1) + mask_sign(pos, neg, n - 1) * acts[n - 1]
    }
}

proof fn lemma_sum_bound(acts: Seq<i8>, pos: Seq<u64>, neg: Seq<u64>, n: int)
    requires
        n >= 0,
    ensures
        -128 * n <= ternary_dot_sum(acts, pos, neg, n) <= 128 * n,
    decreases n,
{
    if n > 0 {
        lemma_sum_bound(acts, pos, neg, n - 1);
        let s = mask_sign(pos, neg, n - 1);
        let a = acts[n - 1] as int;
        assert(-128 <= s * a <= 128) by (nonlinear_arith)
            requires
                -1 <= s <= 1,
                -128 <= a <= 127,
        ;
    }
}

/// Mask words of one row of `n` weights.
pub open spec fn row_words(n: int) -> int {
    (n + 63) / 64
}

/// Row `r` of row-major masks with `w` words per row.
pub open spec fn mask_row(m: Seq<u64>, r: int, w: int) -> Seq<u64> {
    m.subrange(r * w, r * w + w)
}

/// The sum over the first `n` weights depends only on the mask words that
/// hold them.
pub proof fn lemma_sum_same_words(
    acts: Seq<i8>,
    p1: Seq<u64>,
    q1: Seq<u64>,
    p2: Seq<u64>,
    q2: Seq<u64>,
    n: int,
)
    requires
        forall|i: int| 0 <= i < row_words(n) ==> p1[i] == p2[i] && q1[i] == q2[i],
    ensures
        ternary_dot_sum(acts, p1, q1, n) == ternary_dot_sum(acts, p2, q2, n),
    decreases n,
{
    if n > 0 {
        assert forall|i: int| 0 <= i < row_words(n - 1) implies p1[i] == p2[i] && q1[i] == q2[i] by {
            assert(row_words(n - 1) <= row_words(n));
        }
        lemma_sum_same_words(acts, p1, q1, p2, q2, n - 1);
        assert((n - 1) / 64 < row_words(n));
    }
}

/// The dot product of `acts` with the ternary weights whose mask words start
/// at word `base`, over the `n_weights / 64` full blocks of 64 weights.
fn ternary_dot_at(acts: &[i8], pos_mask: &[u64], neg_mask: &[u64], base: usize, n_weights: usize) -> (r: i32)
    requires
        n_weights <= MAX_KERNEL_WEIGHTS,
        acts@.len() >= (n_weights / 64) * 64,
        base + n_weights / 64 <= pos_mask@.len(),
        base + n_weights / 64 <= neg_mask@.len(),
    ensures
        r == ternary_dot_sum(
            acts@,
            pos_mask@.subrange(base as int, base + n_weights / 64),
            neg_mask@.subrange(base as int, base + n_weights / 64),
            (n_weights / 64) * 64,
        ),
{
    let n_blocks = n_weights / 64;
    let n = n_blocks * 64;
    let ghost pv = pos_mask@.subrange(base as int, base + n_blocks);
    let ghost nv = neg_mask@.subrange(base as int, base + n_blocks);
    let plen = pos_mask.len();
    let mut acc: i64 = 0;
    let mut k: usize = 0;
    while k < n
        invariant
            n == n_blocks * 64,
            n <= MAX_KERNEL_WEIGHTS,
            acts@.len() >= n,
            base + n_blocks <= pos_mask@.len(),
            base + n_blocks <= neg_mask@.len(),
            plen == pos_mask@.len(),
            pv == pos_mask@.subrange(base as int, base + n_blocks),
            nv == neg_mask@.subrange(base as int, base + n_blocks),
            k <= n,
            acc == ternary_dot_sum(acts@, pv, nv, k as int),
        decreases n - k,
    {
        proof {
            lemma_sum_bound(acts@, pv, nv, k as int);
        }
        assert(k / 64 < n_blocks);
        let word = base + k / 64;
        let bit = (k % 64) as u64;
        let a = acts[k] as i64;
        let p = (pos_mask[word] >> bit) & 1u64 == 1u64;
        let q = (neg_mask[word] >> bit) & 1u64 == 1u64;
        assert(pv[(k / 64) as int] == pos_mask@[word as int]);
        assert(nv[(k / 64) as int] == neg_mask@[word as int]);
        let ghost sign = mask_sign(pv, nv, k as int);
        assert(sign == (if p {
            1int
        } else {
            0int
        }) - (if q {
            1int
        } else {
            0int
        }));
        assert(ternary_dot_sum(acts@, pv, nv, k + 1) == acc + sign * a);
        assert(sign * a == (if p {
            a as int
        } else {
            0int
        }) - (if q {
            a as int
        } else {
            0int
        })) by {
            let ai = a as int;
            if p && q {
                assert(sign * ai == 0) by (nonlinear_arith)
                    requires
                        sign == 0,
                ;
            } else if p {
                assert(sign * ai == ai) by (nonlinear_arith)
                    requires
                        sign == 1,
                ;
            } else if q {
                assert(sign * ai == -ai) by (nonlinear_arith)
                    requires
                        sign == -1,
                ;
            } else {
                assert(sign * ai == 0) by (nonlinear_arith)
                    requires
                        sign == 0,
                ;
            }
        }
        if p {
            acc = acc + a;
        }
        if q {
            acc = acc - a;
        }
        k += 1;
    }
    proof {
        lemma_sum_bound(acts@, pv, nv, n as int);
    }
    acc as i32
}

/// The dot product of `acts` with the ternary weights of the masks, over
/// the `n_weights / 64` full blocks of 64 weights.
pub fn ternary_dot(acts: &[i8], pos_mask: &[u64], neg_mask: &[u64], n_weights: usize) -> (r: i32)
    requires
        n_weights <= MAX_KERNEL_WEIGHTS,
        acts@.len() >= (n_weights / 64) * 64,
        pos_mask@.len() >= n_weights / 64,
        neg_mask@.len() >= n_weights / 64,
    ensures
        r == ternary_dot_sum(acts@, pos_mask@, neg_mask@, (n_weights / 64) * 64),
{
    let r = ternary_dot_at(acts, pos_mask, neg_mask, 0, n_weights);
    proof {
        let nb = n_weights / 64;
        lemma_sum_same_words(
            acts@,
            pos_mask@.subrange(0, nb as int),
            neg_mask@.subrange(0, nb as int),
            pos_mask@,
            neg_mask@,
            nb * 64,
        );
    }
    r
}

/// The batched kernel: for each of the `m_rows` rows of the row-major masks
/// (`row_words(n_weights)` words per row), the dot product of `acts` with
/// that row, written to `out[row]`; the rest of `out` is left as it was.
pub fn ternary_dot_batch(
    acts: &[i8],
    pos_masks: &[u64],
    neg_masks: &[u64],
    n_weights: usize,
    m_rows: usize,
    out: &mut [i32],
)
    requires
        n_weights <= MAX_KERNEL_WEIGHTS,
        acts@.len() >= (n_weights / 64) * 64,
        m_rows * row_words(n_weights as int) <= pos_masks@.len(),
        m_rows * row_words(n_weights as int) <= neg_masks@.len(),
        m_rows <= old(out)@.len(),
    ensures
        final(out)@.len() == old(out)@.len(),
        forall|r: int|
            0 <= r < m_rows ==> #[trigger] final(out)@[r] == ternary_dot_sum(
                acts@,
                mask_row(pos_masks@, r, row_words(n_weights as int)),
                mask_row(neg_masks@, r, row_words(n_weights as int)),
                (n_weights / 64) * 64,
            ),
        forall|r: int| m_rows <= r < old(out)@.len() ==> #[trigger] final(out)@[r] == old(out)@[r],
{
    let w = (n_weights + 63) / 64;
    let nb = n_weights / 64;
    let ghost wi = row_words(n_weights as int);
    let plen = pos_masks.len();
    let mut r: usize = 0;
    while r < m_rows
        invariant
            w == wi,
            wi == row_words(n_weights as int),
            nb == n_weights / 64,
            nb <= w,
            n_weights <= MAX_KERNEL_WEIGHTS,
            acts@.len() >= (n_weights / 64) * 64,
            m_rows * wi <= pos_masks@.len(),
            m_rows * wi <= neg_masks@.len(),
            plen == pos_masks@.len(),
            m_rows <= out@.len(),
            out@.len() == old(out)@.len(),
            r <= m_rows,
            forall|i: int|
                0 <= i < r ==> #[trigger] out@[i] == ternary_dot_sum(
                    acts@,
                    mask_row(pos_masks@, i, wi),
                    mask_row(neg_masks@, i, wi),
                    (n_weights / 64) * 64,
                ),
            forall|i: int| m_rows <= i < out@.len() ==> #[trigger] out@[i] == old(out)@[i],
        decreases m_rows - r,
    {
        assert((r + 1) * w <= m_rows * w) by (nonlinear_arith)
            requires
                r + 1 <= m_rows,
        ;
        assert(r * w + w == (r + 1) * w) by (nonlinear_arith);
        assert(m_rows * w == m_rows * wi);
        assert(r * w + w <= pos_masks@.len());
        let base = r * w;
        let d = ternary_dot_at(acts, pos_masks, neg_masks, base, n_weights);
        proof {
            let ri = r as int;
            lemma_sum_same_words(
                acts@,
                pos_masks@.subrange(base as int, base + nb),
                neg_masks@.subrange(base as int, base + nb),
                mask_row(pos_masks@, ri, wi),
                mask_row(neg_masks@, ri, wi),
                nb * 64,
            );
        }
        out[r] = d;
        r += 1;
    }
}

} // verus!

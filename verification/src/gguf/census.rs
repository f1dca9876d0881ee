//! What the weight validator measures of a bitmask tensor: how many weights
//! are +1 and -1, whether the mix looks like a ternary model, and a plain
//! bit-by-bit dot product to hold the kernel's result against.
use vstd::prelude::*;
use crate::bits::bit_set;
use crate::gguf::weight_loader::BitmaskTensor;
use crate::simd::avx512_bw::{mask_sign, ternary_dot_sum};

verus! {

/// The number of set bits among the low `n` bits of `w`.
pub open spec fn popcount_low(w: u64, n: int) -> int
    decreases n,
{
    if n <= 0 {
        0
    } else {
        popcount_low(w, n - 1) + if bit_set(w, (n - 1) as u64) {
            1int
        } else {
            0int
        }
    }
}

/// The number of set bits of `w`.
pub open spec fn popcount(w: u64) -> int {
    popcount_low(w, 64)
}

/// The set bits of the first `n` words.
pub open spec fn words_popcount(words: Seq<u64>, n: int) -> int
    decreases n,
{
    if n <= 0 {
        0
    } else {
        words_popcount(words, n - 1) + popcount(words[n - 1])
    }
}

proof fn lemma_popcount_low_bound(w: u64, n: int)
    requires
        0 <= n,
    ensures
        0 <= popcount_low(w, n) <= n,
    decreases n,
{
    if n > 0 {
        lemma_popcount_low_bound(w, n - 1);
    }
}

proof fn lemma_words_popcount_bound(words: Seq<u64>, n: int)
    requires
        0 <= n,
    ensures
        0 <= words_popcount(words, n) <= 64 * n,
    decreases n,
{
    if n > 0 {
        lemma_words_popcount_bound(words, n - 1);
        lemma_popcount_low_bound(words[n - 1], 64);
    }
}

/// The number of one bits of `x`, bit by bit.
fn count_ones(x: u64) -> (r: u32)
    ensures
        r == popcount(x),
{
    let mut acc: u32 = 0;
    let mut k: u64 = 0;
    while k < 64
        invariant
            k <= 64,
            acc == popcount_low(x, k as int),
            acc <= k,
        decreases 64 - k,
    {
        let b = (x >> k) & 1u64;
        assert(b <= 1) by (bit_vector)
            requires
                b == (x >> k) & 1u64,
        ;
        assert(bit_set(x, k) == (b == 1));
        acc = acc + b as u32;
        k += 1;
    }
    acc
}

/// The number of +1 and of -1 weights of a tensor: the set bits of its
/// positive and negative masks over `rows * (cols / 64)` words.
pub fn weight_census(t: &BitmaskTensor) -> (r: (u64, u64))
    requires
        t.rows * (t.cols / 64) <= t.pos_mask@.len(),
        t.rows * (t.cols / 64) <= t.neg_mask@.len(),
        64 * (t.rows * (t.cols / 64)) <= u64::MAX,
    ensures
        r.0 == words_popcount(t.pos_mask@, t.rows * (t.cols / 64)),
        r.1 == words_popcount(t.neg_mask@, t.rows * (t.cols / 64)),
{
    let words_per_row = t.cols / 64;
    let _plen = t.pos_mask.len();
    let n = t.rows * words_per_row;
    let mut pos: u64 = 0;
    let mut neg: u64 = 0;
    let mut w: usize = 0;
    while w < n
        invariant
            n == t.rows * (t.cols / 64),
            n <= t.pos_mask@.len(),
            n <= t.neg_mask@.len(),
            64 * n <= u64::MAX,
            w <= n,
            pos == words_popcount(t.pos_mask@, w as int),
            neg == words_popcount(t.neg_mask@, w as int),
        decreases n - w,
    {
        proof {
            lemma_words_popcount_bound(t.pos_mask@, w + 1);
            lemma_words_popcount_bound(t.neg_mask@, w + 1);
            lemma_popcount_low_bound(t.pos_mask@[w as int], 64);
            lemma_popcount_low_bound(t.neg_mask@[w as int], 64);
            assert(words_popcount(t.pos_mask@, w + 1) == pos + popcount(t.pos_mask@[w as int]));
            assert(words_popcount(t.neg_mask@, w + 1) == neg + popcount(t.neg_mask@[w as int]));
        }
        pos = pos + count_ones(t.pos_mask[w]) as u64;
        neg = neg + count_ones(t.neg_mask[w]) as u64;
        w += 1;
    }
    (pos, neg)
}

/// The validator's warnings: nearly every weight nonzero (more than 95% of
/// `total`, not a ternary model), and nearly every weight zero (more than
/// 95%, the threshold destroying the signal).
pub fn sparsity_warnings(total: u64, pos: u64, neg: u64) -> (r: (bool, bool))
    requires
        pos + neg <= total,
        total * 95 <= u64::MAX,
    ensures
        r.0 == (pos + neg > total * 95 / 100),
        r.1 == (total - pos - neg > total * 95 / 100),
{
    let limit = total * 95 / 100;
    (pos + neg > limit, total - pos - neg > limit)
}

/// The dot product of the first `n` weights with the activations, one
/// weight at a time: +1 for a positive bit, -1 for a negative bit, 0 for
/// neither or both.
pub fn reference_dot(acts: &[i8], pos_mask: &[u64], neg_mask: &[u64], n: usize) -> (r: i32)
    requires
        n <= 16777215,
        n <= acts@.len(),
        (n + 63) / 64 <= pos_mask@.len(),
        (n + 63) / 64 <= neg_mask@.len(),
    ensures
        r == ternary_dot_sum(acts@, pos_mask@, neg_mask@, n as int),
{
    let mut acc: i32 = 0;
    let mut k: usize = 0;
    while k < n
        invariant
            n <= 16777215,
            n <= acts@.len(),
            (n + 63) / 64 <= pos_mask@.len(),
            (n + 63) / 64 <= neg_mask@.len(),
            k <= n,
            acc == ternary_dot_sum(acts@, pos_mask@, neg_mask@, k as int),
            -128 * k <= acc <= 128 * k,
        decreases n - k,
    {
        let word = k / 64;
        let shift = (k % 64) as u64;
        assert(word < pos_mask@.len()) by {
            assert(k / 64 <= (n + 63) / 64 - 1) by (nonlinear_arith)
                requires
                    k < n,
            ;
        }
        let p = (pos_mask[word] >> shift) & 1;
        let q = (neg_mask[word] >> shift) & 1;
        let pw = pos_mask[word];
        let nw = neg_mask[word];
        assert(p == 1 <==> bit_set(pw, shift)) by (bit_vector)
            requires
                p == (pw >> shift) & 1,
                shift < 64,
        ;
        assert(q == 1 <==> bit_set(nw, shift)) by (bit_vector)
            requires
                q == (nw >> shift) & 1,
                shift < 64,
        ;
        assert(p <= 1 && q <= 1) by (bit_vector)
            requires
                p == (pw >> shift) & 1,
                q == (nw >> shift) & 1,
        ;
        let s: i32 = p as i32 - q as i32;
        assert(s == mask_sign(pos_mask@, neg_mask@, k as int));
        let a = acts[k] as i32;
        assert(-128 <= s * a <= 128) by (nonlinear_arith)
            requires
                -1 <= s <= 1,
                -128 <= a <= 127,
        ;
        acc = acc + s * a;
        k += 1;
    }
    acc
}

/// The sum of the first `n` activations whose bit is set in `m`.
pub open spec fn masked_sum(acts: Seq<i8>, m: Seq<u64>, n: int) -> int
    decreases n,
{
    if n <= 0 {
        0
    } else {
        masked_sum(acts, m, n - 1) + if bit_set(m[(n - 1) / 64], ((n - 1) % 64) as u64) {
            acts[n - 1] as int
        } else {
            0int
        }
    }
}

/// The weight-by-weight reference (+1, -1 or 0 for each weight, 0 when
/// both bits are set) is the kernel's form of the dot product: the sum of
/// the activations under positive bits minus the sum of those under
/// negative bits.
pub proof fn law_kernel_matches_reference(acts: Seq<i8>, pos: Seq<u64>, neg: Seq<u64>, n: int)
    requires
        n >= 0,
    ensures
        ternary_dot_sum(acts, pos, neg, n) == masked_sum(acts, pos, n) - masked_sum(acts, neg, n),
    decreases n,
{
    if n > 0 {
        law_kernel_matches_reference(acts, pos, neg, n - 1);
        let k = n - 1;
        let p = bit_set(pos[k / 64], (k % 64) as u64);
        let q = bit_set(neg[k / 64], (k % 64) as u64);
        let s = mask_sign(pos, neg, k);
        let a = acts[k] as int;
        assert(s * a == (if p {
            a
        } else {
            0int
        }) - (if q {
            a
        } else {
            0int
        })) by (nonlinear_arith)
            requires
                s == (if p {
                    1int
                } else {
                    0int
                }) - (if q {
                    1int
                } else {
                    0int
                }),
        ;
    }
}

} // verus!

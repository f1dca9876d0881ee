use aegis::gguf::census::{reference_dot, sparsity_warnings, weight_census};
use aegis::gguf::weight_loader::BitmaskTensor;
use aegis::architecture::{CacheLockedAllocator, L3OptimizedTransformerLayer};
use aegis::simd::avx512_bw;
use aegis::simd::dispatch::{vtable, CpuFeatures, SimdTier};
use aegis::ternary::TernaryTensor;

fn bitwise_dot(acts: &[i8], pos: &[u64], neg: &[u64], n: usize) -> i32 {
    let mut s = 0i32;
    for k in 0..(n / 64) * 64 {
        let p = (pos[k / 64] >> (k % 64)) & 1;
        let q = (neg[k / 64] >> (k % 64)) & 1;
        s += (p as i32 - q as i32) * acts[k] as i32;
    }
    s
}

#[test]
fn ternary_dot_adds_positive_and_subtracts_negative() {
    let acts: Vec<i8> = (0..128).map(|i: i32| (i % 11 - 5) as i8).collect();
    let pos = vec![0x5555_5555_5555_5555u64, 0xF0F0_0000_FFFF_0001];
    let neg = vec![0xAAAA_AAAA_AAAA_AAAAu64, 0x0F0F_1234_0000_0002];
    let r = avx512_bw::ternary_dot(&acts, &pos, &neg, 128);
    assert_eq!(r, bitwise_dot(&acts, &pos, &neg, 128));
}

#[test]
fn ternary_dot_counts_whole_blocks_only() {
    let acts = vec![1i8; 128];
    let pos = vec![u64::MAX, u64::MAX];
    let neg = vec![0u64, 0];
    // 100 weights cover one full block of 64.
    assert_eq!(avx512_bw::ternary_dot(&acts, &pos, &neg, 100), 64);
    assert_eq!(avx512_bw::ternary_dot(&acts, &pos, &neg, 63), 0);
    // A weight marked both +1 and -1 counts as 0.
    assert_eq!(avx512_bw::ternary_dot(&acts, &pos, &vec![u64::MAX, 0], 128), 64);
}

#[test]
fn extreme_activations() {
    let acts = vec![-128i8; 64];
    assert_eq!(avx512_bw::ternary_dot(&acts, &[u64::MAX], &[0], 64), -128 * 64);
    assert_eq!(avx512_bw::ternary_dot(&acts, &[0], &[u64::MAX], 64), 128 * 64);
}

#[test]
fn dispatch_picks_avx512_only_with_both_features() {
    let both = vtable(CpuFeatures { avx512f: true, avx512bw: true });
    assert_eq!(both.tier, SimdTier::Avx512Bw);
    let f_only = vtable(CpuFeatures { avx512f: true, avx512bw: false });
    assert_eq!(f_only.tier, SimdTier::Scalar);
    let none = vtable(CpuFeatures { avx512f: false, avx512bw: false });
    assert_eq!(none.tier, SimdTier::Scalar);
}

#[test]
fn vtable_kernels() {
    let acts = vec![2i8; 64];
    let pos = vec![0xFFu64];
    let neg = vec![0x100u64];
    let fast = vtable(CpuFeatures { avx512f: true, avx512bw: true });
    assert_eq!(fast.ternary_dot(&acts, &pos, &neg, 64), 14);
    // The scalar tier computes the same dot product.
    let slow = vtable(CpuFeatures { avx512f: false, avx512bw: true });
    assert_eq!(slow.ternary_dot(&acts, &pos, &neg, 64), 14);
}

#[test]
fn batch_kernel_writes_one_dot_per_row() {
    let acts: Vec<i8> = (0..128).map(|i: i32| (i % 9 - 4) as i8).collect();
    // Three rows of two words each, row-major.
    let pos = vec![u64::MAX, 0, 0x1234, 0xFFFF_0000, 0, 1];
    let neg = vec![0, u64::MAX, 0x4321, 0, 7, 0];
    for feats in [CpuFeatures { avx512f: true, avx512bw: true }, CpuFeatures { avx512f: false, avx512bw: false }] {
        let vt = vtable(feats);
        let mut out = vec![99i32; 4];
        vt.ternary_dot_batch(&acts, &pos, &neg, 128, 3, &mut out);
        for r in 0..3 {
            let want = bitwise_dot(&acts, &pos[2 * r..2 * r + 2], &neg[2 * r..2 * r + 2], 128);
            assert_eq!(out[r], want);
        }
        // Past the rows, out is untouched.
        assert_eq!(out[3], 99);
    }
    let mut out = vec![0i32; 3];
    avx512_bw::ternary_dot_batch(&acts, &pos, &neg, 128, 3, &mut out);
    assert_eq!(out[0], acts[..64].iter().map(|&a| a as i32).sum::<i32>() - acts[64..].iter().map(|&a| a as i32).sum::<i32>());
}

#[test]
fn ternary_tensor_starts_all_zero() {
    let t = TernaryTensor::new(3, 10, 1.0f32.to_bits());
    assert_eq!(t.rows, 3);
    assert_eq!(t.cols, 10);
    // Three bytes per row of ten weights, four weights per byte.
    assert_eq!(t.packed_weights, vec![0u8; 9]);
    assert_eq!(t.row_dots(&[5i8; 10]), vec![0, 0, 0]);
}

#[test]
fn ternary_tensor_row_dots_unpack_two_bit_weights() {
    // Codes: 01 = +1, 10 = -1, 00 and 11 = 0; weight i of a byte is bits 2i..2i+2.
    let t = TernaryTensor {
        rows: 2,
        cols: 8,
        packed_weights: vec![0b10_01_11_01, 0b01_01_01_01, 0b10_10_10_10, 0b00_00_00_00],
        scale_bits: 0,
    };
    let acts: Vec<i8> = vec![1, 2, 3, 4, 5, 6, 7, 8];
    // Row 0: +1, 0, +1, -1 | +1, +1, +1, +1
    assert_eq!(t.row_dots(&acts)[0], 1 + 3 - 4 + 5 + 6 + 7 + 8);
    // Row 1: -1 x4 | 0 x4
    assert_eq!(t.row_dots(&acts)[1], -(1 + 2 + 3 + 4));
}

#[test]
fn allocator_and_layer() {
    let mut a = CacheLockedAllocator::new(100);
    assert_eq!(a.len(), 100);
    {
        let s = a.as_mut_ptr();
        assert!(s.iter().all(|&b| b == 0));
        s[7] = 9;
    }
    assert_eq!(a.as_mut_ptr()[7], 9);
    let layer = L3OptimizedTransformerLayer {
        attention_weights: CacheLockedAllocator::new(8),
        ffn_weights: CacheLockedAllocator::new(8),
        hidden_size: 5,
    };
    assert_eq!(layer.forward_cpu(&[1, 2, 3]), vec![0; 5]);
}

#[test]
fn weight_census_counts_mask_bits() {
    let t = BitmaskTensor {
        rows: 2,
        cols: 64,
        cols_raw: 60,
        pos_mask: vec![0b1011, u64::MAX, 0xFF],
        neg_mask: vec![0, 1 << 63, 0xFF],
        mask_words: 2,
        scale_bits: vec![],
    };
    // Only the first rows * cols / 64 = 2 words count.
    assert_eq!(weight_census(&t), (3 + 64, 1));
}

#[test]
fn sparsity_warning_thresholds() {
    // 95% of 100 is 95: more than that is a warning.
    assert_eq!(sparsity_warnings(100, 50, 46), (true, false));
    assert_eq!(sparsity_warnings(100, 50, 45), (false, false));
    assert_eq!(sparsity_warnings(100, 2, 2), (false, true));
    assert_eq!(sparsity_warnings(100, 3, 2), (false, false));
}

#[test]
fn reference_dot_goes_weight_by_weight() {
    let acts: Vec<i8> = (0..70).map(|i: i32| (i % 7 - 3) as i8).collect();
    let pos = vec![0x0F0F_0F0F_0F0F_0F0Fu64, 0b101];
    let neg = vec![0xF0F0_F0F0_F0F0_F0F0u64, 0b110];
    // Unlike the kernel, the reference counts a partial last block.
    assert_eq!(reference_dot(&acts, &pos, &neg, 70), {
        let mut s = 0i32;
        for k in 0..70 {
            let p = (pos[k / 64] >> (k % 64)) & 1;
            let q = (neg[k / 64] >> (k % 64)) & 1;
            s += (p as i32 - q as i32) * acts[k] as i32;
        }
        s
    });
    assert_eq!(reference_dot(&acts, &pos, &neg, 0), 0);
}

#[test]
fn kernel_agrees_with_the_reference_on_whole_blocks() {
    let acts: Vec<i8> = (0..192).map(|i: i32| ((i * 13) % 255 - 127) as i8).collect();
    let pos = vec![0x1234_5678_9ABC_DEF0u64, 0x0F0F_0000_FFFF_1111, 0x8000_0000_0000_0001];
    let neg = vec![0x0000_0000_0000_0F0Fu64, 0xF0F0_1111_0000_2222, 0x7000_0000_0000_0002];
    assert_eq!(avx512_bw::ternary_dot(&acts, &pos, &neg, 192), reference_dot(&acts, &pos, &neg, 192));
}

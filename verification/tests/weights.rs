use aegis::gguf::loader::EmbeddingSource;
use aegis::gguf::parser::{GgufParser, TensorInfo};
use aegis::gguf::weight_loader::{
    f16_to_f32_bits, head_count, matrix_shape, model_hparams, plan_tensor,
    q8_blocks_to_ternary_bitmasks, ternary_weight, TensorPlan,
};

fn put_u32(b: &mut Vec<u8>, x: u32) {
    b.extend_from_slice(&x.to_le_bytes());
}

fn put_u64(b: &mut Vec<u8>, x: u64) {
    b.extend_from_slice(&x.to_le_bytes());
}

fn put_str(b: &mut Vec<u8>, s: &str) {
    put_u64(b, s.len() as u64);
    b.extend_from_slice(s.as_bytes());
}

fn tensor(b: &mut Vec<u8>, name: &str, dims: &[u64], ty: u32, off: u64) {
    put_str(b, name);
    put_u32(b, dims.len() as u32);
    for &d in dims {
        put_u64(b, d);
    }
    put_u32(b, ty);
    put_u64(b, off);
}

/// Q8_0 blocks: an f16 scale, then 32 quants.
fn q8_data(scales: &[u16], quants: &[i8]) -> Vec<u8> {
    let mut out = Vec::new();
    for (b, &s) in scales.iter().enumerate() {
        out.extend_from_slice(&s.to_le_bytes());
        for k in 0..32 {
            out.push(quants[b * 32 + k] as u8);
        }
    }
    out
}

/// The sign the float computation gives to `scale * q`, compared with a zero threshold.
fn float_sign(scale_bits: u16, q: i8) -> i8 {
    let delta = f32::from_bits(f16_to_f32_bits(scale_bits));
    let w = delta * q as f32;
    let threshold = delta.abs() * 0.0;
    if w > threshold {
        1
    } else if w < -threshold {
        -1
    } else {
        0
    }
}

#[test]
fn f16_bit_patterns_become_f32_bit_patterns() {
    assert_eq!(f16_to_f32_bits(0x3C00), 1.0f32.to_bits());
    assert_eq!(f16_to_f32_bits(0xC000), (-2.0f32).to_bits());
    assert_eq!(f16_to_f32_bits(0x3555), 0x3EAA_A000);
    assert_eq!(f16_to_f32_bits(0x0000), 0);
    assert_eq!(f16_to_f32_bits(0x8000), 0x8000_0000);
    assert_eq!(f16_to_f32_bits(0x7C00), f32::INFINITY.to_bits());
    // Subnormals are flushed to a zero of the same sign.
    assert_eq!(f16_to_f32_bits(0x0001), 0);
    assert_eq!(f16_to_f32_bits(0x83FF), 0x8000_0000);
}

#[test]
fn subnormal_scales_give_zero_weights() {
    let quants: Vec<i8> = (0..32).map(|i: i32| (i % 3 - 1) as i8).collect();
    let raw = q8_data(&[0x0200u16], &quants);
    let t = q8_blocks_to_ternary_bitmasks(&raw, 1, 32);
    assert_eq!(t.pos_mask, vec![0]);
    assert_eq!(t.neg_mask, vec![0]);
    assert_eq!(t.scale_bits, vec![0]);
    assert_eq!(ternary_weight(0x8001, 5), 0);
}

#[test]
fn ternary_weights_match_the_float_sign() {
    let scales: [u16; 8] = [0x3C00, 0xBC00, 0x0000, 0x8000, 0x0001, 0x7C00, 0x7E00, 0x2E66];
    let quants: [i8; 7] = [0, 1, -1, 127, -128, 3, -50];
    for &s in &scales {
        for &q in &quants {
            assert_eq!(ternary_weight(s, q as u8), float_sign(s, q), "scale {:#x} q {}", s, q);
        }
    }
}

#[test]
fn q8_blocks_convert_to_dual_bitmasks() {
    let rows = 2;
    let cols_raw = 40;
    let n = rows * cols_raw;
    // Three blocks hold the 80 weights; the tail of the last one is unused.
    let quants: Vec<i8> = (0..96).map(|i: i32| ((i * 7) % 5 - 2) as i8).collect();
    let scales = [0x3C00u16, 0xBC00, 0x3800];
    let raw = q8_data(&scales, &quants);
    let t = q8_blocks_to_ternary_bitmasks(&raw, rows, cols_raw);
    assert_eq!(t.rows, 2);
    assert_eq!(t.cols, 64);
    assert_eq!(t.cols_raw, 40);
    assert_eq!(t.mask_words, 2);
    assert_eq!(t.pos_mask.len(), 2);
    assert_eq!(t.neg_mask.len(), 2);
    assert_eq!(t.scale_bits, vec![1.0f32.to_bits(), (-1.0f32).to_bits(), 0.5f32.to_bits()]);
    for e in 0..n {
        let row = e / cols_raw;
        let col = e % cols_raw;
        let bit = row * 64 + col;
        let want = float_sign(scales[e / 32], quants[e]);
        let pos = (t.pos_mask[bit / 64] >> (bit % 64)) & 1 == 1;
        let neg = (t.neg_mask[bit / 64] >> (bit % 64)) & 1 == 1;
        assert_eq!(pos, want == 1, "element {}", e);
        assert_eq!(neg, want == -1, "element {}", e);
    }
    // No weight is both +1 and -1.
    for w in 0..t.mask_words {
        assert_eq!(t.pos_mask[w] & t.neg_mask[w], 0);
    }
    // Padding columns stay zero.
    for row in 0..rows {
        for col in cols_raw..64 {
            let bit = row * 64 + col;
            assert_eq!((t.pos_mask[bit / 64] >> (bit % 64)) & 1, 0);
            assert_eq!((t.neg_mask[bit / 64] >> (bit % 64)) & 1, 0);
        }
    }
}

fn hparam_file(extra: &[(&str, u32)]) -> Vec<u8> {
    let mut b = Vec::new();
    b.extend_from_slice(b"GGUF");
    put_u32(&mut b, 3);
    put_u64(&mut b, 0);
    put_u64(&mut b, extra.len() as u64);
    for (k, v) in extra {
        put_str(&mut b, k);
        put_u32(&mut b, 4);
        put_u32(&mut b, *v);
    }
    b
}

#[test]
fn hyper_parameters_with_llama_keys_first() {
    let b = hparam_file(&[
        ("llama.embedding_length", 2048),
        ("bitnet.embedding_length", 999),
        ("bitnet.attention.head_count", 16),
        ("llama.block_count", 24),
    ]);
    let p = GgufParser::open(&b).unwrap();
    assert_eq!(head_count(&p.header), 16);
    let h = model_hparams(&p.header);
    assert_eq!(h.n_embd, 2048);
    assert_eq!(h.n_heads, 16);
    // Without a key for it, the KV head count is the head count.
    assert_eq!(h.n_heads_kv, 16);
    assert_eq!(h.n_layers, 24);
    assert_eq!(h.n_ctx, 2048);
    assert_eq!(h.head_dim, 128);
}

#[test]
fn hyper_parameter_defaults() {
    let p = GgufParser::open(&hparam_file(&[])).unwrap();
    let h = model_hparams(&p.header);
    assert_eq!((h.n_ctx, h.n_embd, h.n_heads, h.n_heads_kv, h.n_layers, h.head_dim), (2048, 4096, 32, 32, 32, 128));
}

fn info(name: &str, ty: u32, dims: Vec<u64>) -> TensorInfo {
    TensorInfo { name: name.to_string(), n_dims: dims.len() as u32, dimensions: dims, ggml_type: ty, data_offset: 0 }
}

#[test]
fn tensor_plans() {
    assert_eq!(plan_tensor(&info("token_embd.weight", 8, vec![])), TensorPlan::Embedding);
    assert_eq!(plan_tensor(&info("blk.0.attn_norm.weight", 0, vec![])), TensorPlan::Norm);
    assert_eq!(plan_tensor(&info("output.bias", 8, vec![])), TensorPlan::SkipNonTernary);
    assert_eq!(plan_tensor(&info("pos_embed.weight", 8, vec![])), TensorPlan::SkipNonTernary);
    assert_eq!(plan_tensor(&info("blk.0.ffn_up.weight", 1, vec![])), TensorPlan::SkipNotQ8);
    assert_eq!(plan_tensor(&info("blk.0.ffn_up.weight", 8, vec![])), TensorPlan::Ternary);
}

#[test]
fn matrix_shapes() {
    assert_eq!(matrix_shape(&vec![64, 3]), Some((3, 64)));
    assert_eq!(matrix_shape(&vec![64]), Some((1, 64)));
    assert_eq!(matrix_shape(&vec![64, 3, 2]), Some((3, 64)));
    assert_eq!(matrix_shape(&vec![]), None);
    assert_eq!(matrix_shape(&vec![1, 2, 3, 4]), None);
}

#[test]
fn load_weights_reads_every_kind_of_tensor() {
    let embed_q: Vec<i8> = (0..64).map(|i: i32| (i % 3 - 1) as i8).collect();
    let embed = q8_data(&[0x3C00, 0x4000], &embed_q);
    let norm: Vec<u8> = (1..=8).collect();
    let wq_q: Vec<i8> = (0..64).map(|i: i32| if i % 2 == 0 { 1 } else { -1 }).collect();
    let wq = q8_data(&[0x3C00, 0x3C00], &wq_q);

    let mut b = Vec::new();
    b.extend_from_slice(b"GGUF");
    put_u32(&mut b, 3);
    put_u64(&mut b, 5);
    put_u64(&mut b, 0);
    tensor(&mut b, "token_embd.weight", &[32, 2], 8, 0);
    // F32: two values of four bytes each, then one.
    tensor(&mut b, "blk.0.attn_norm.weight", &[2], 0, 68);
    tensor(&mut b, "output.bias", &[1], 0, 76);
    tensor(&mut b, "blk.0.ffn_up.weight", &[4], 1, 80);
    tensor(&mut b, "blk.0.attn_q.weight", &[64, 1], 8, 88);
    let p = GgufParser::open(&b).unwrap();
    let start = p.header.data_start as usize;
    b.resize(start, 0);
    b.extend_from_slice(&embed);
    b.extend_from_slice(&norm);
    b.extend_from_slice(&[0u8; 12]);
    b.extend_from_slice(&wq);
    assert!(p.loadable());
    let w = p.load_weights(&b).unwrap();

    assert_eq!(w.embeddings.len(), 1);
    let e: &EmbeddingSource = &w.embeddings[0];
    assert_eq!((e.rows, e.cols_raw, e.ggml_type), (2, 32, 8));
    assert_eq!(e.bytes, embed);

    assert_eq!(w.norms.len(), 1);
    assert_eq!(w.norms[0].0, "blk.0.attn_norm.weight");
    assert_eq!(w.norms[0].1, norm);

    assert_eq!(w.ternary.len(), 1);
    assert_eq!(w.ternary[0].0, "blk.0.attn_q.weight");
    let t = &w.ternary[0].1;
    assert_eq!((t.rows, t.cols, t.cols_raw), (1, 64, 64));
    assert_eq!(t.pos_mask, vec![0x5555_5555_5555_5555]);
    assert_eq!(t.neg_mask, vec![0xAAAA_AAAA_AAAA_AAAA]);
}

#[test]
fn load_weights_fails_when_data_is_missing() {
    let mut b = Vec::new();
    b.extend_from_slice(b"GGUF");
    put_u32(&mut b, 3);
    put_u64(&mut b, 1);
    put_u64(&mut b, 0);
    tensor(&mut b, "blk.0.attn_q.weight", &[64, 1], 8, 0);
    let p = GgufParser::open(&b).unwrap();
    assert!(p.loadable());
    assert_eq!(p.load_weights(&b).err(), Some(aegis::gguf::bytes::GgufError::UnexpectedEof));
}

#[test]
fn unknown_tensor_types_are_not_loadable() {
    let mut b = Vec::new();
    b.extend_from_slice(b"GGUF");
    put_u32(&mut b, 3);
    put_u64(&mut b, 1);
    put_u64(&mut b, 0);
    tensor(&mut b, "blk.0.attn_q.weight", &[64, 1], 3, 0);
    let p = GgufParser::open(&b).unwrap();
    assert!(!p.loadable());
}

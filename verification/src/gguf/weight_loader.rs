//! From GGUF tensors to the engine's weights.
//!
//! Q8_0 tensors (blocks of an f16 scale and 32 signed bytes) become dual
//! bitmasks: bit `j` of the positive mask is set when weight `j` is +1, of
//! the negative mask when it is -1.  A weight's sign is that of
//! `scale * quant`; it is computed here from the bit patterns, without
//! floating point: zero when the quant is zero, when the scale is zero or
//! subnormal (subnormal f16 scales are flushed to zero), or when the scale
//! is infinite or NaN (the product is then compared with a
//! NaN threshold); otherwise the product of the two signs.
use vstd::prelude::*;
use crate::bits::{bit_set, lemma_full_and_empty, lemma_set_bit};
use crate::gguf::bytes::le_u16;
use crate::gguf::parser::{GgufHeader, MetaModel, MetadataValue, TensorInfo, meta_view};
use crate::text::{contains_sub, str_contains, str_equal};

verus! {

/// Elements per Q8_0 block.
pub const Q8_BLOCK_SIZE: usize = 32;

/// Bytes per Q8_0 block: an f16 scale and 32 quants.
pub const Q8_BLOCK_BYTES: usize = 34;

/// The IEEE-754 binary32 bit pattern the engine gives an f16 bit pattern:
/// same sign and mantissa (shifted into place), exponent rebiased from 15 to
/// 127; zeros and subnormals are flushed to a zero of the same sign, and
/// infinities and NaNs map to the all-ones exponent.
pub open spec fn spec_f16_to_f32_bits(h: u16) -> u32 {
    let sign = h / 32768;
    let exp = (h / 1024) % 32;
    let mant = if exp == 0 {
        0
    } else {
        h % 1024
    };
    let e32: int = if exp == 0 {
        0
    } else if exp == 31 {
        255
    } else {
        exp + 112
    };
    (sign * 0x8000_0000 + e32 * 0x80_0000 + mant * 8192) as u32
}

/// The f32 bit pattern of an f16 scale (see [`spec_f16_to_f32_bits`]).
pub fn f16_to_f32_bits(h: u16) -> (r: u32)
    ensures
        r == spec_f16_to_f32_bits(h),
{
    let sign = (h / 32768) as u32;
    let exp = ((h / 1024) % 32) as u32;
    let mant: u32 = if exp == 0 {
        0
    } else {
        (h % 1024) as u32
    };
    let e32: u32 = if exp == 0 {
        0
    } else if exp == 31 {
        255
    } else {
        exp + 112
    };
    sign * 0x8000_0000 + e32 * 0x80_0000 + mant * 8192
}

/// The sign of `scale * quant` for an f16 scale and a quant byte read as a
/// two's-complement `i8`: 1, -1, or 0.  A zero or subnormal scale is
/// flushed to zero, so its weights are all 0.
pub open spec fn ternary_of(delta: u16, q: u8) -> int {
    let exp = (delta / 1024) % 32;
    if exp == 31 || exp == 0 || q == 0 {
        0
    } else if (delta < 32768) == (q < 128) {
        1
    } else {
        -1
    }
}

/// The ternary value of one weight (see [`ternary_of`]).
pub fn ternary_weight(delta: u16, q: u8) -> (t: i8)
    ensures
        t == ternary_of(delta, q),
{
    let exp = (delta / 1024) % 32;
    if exp == 31 || exp == 0 || q == 0 {
        0
    } else if (delta < 32768) == (q < 128) {
        1
    } else {
        -1
    }
}

/// The ternary value of element `e` of Q8_0 data.
pub open spec fn elem_ternary(raw: Seq<u8>, e: int) -> int {
    let off = (e / 32) * 34;
    ternary_of(le_u16(raw, off), raw[off + 2 + e % 32])
}

/// Columns padded to a multiple of 64.
pub open spec fn padded_cols(cols_raw: int) -> int {
    ((cols_raw + 63) / 64) * 64
}

/// Q8_0 blocks holding `n` elements.
pub open spec fn q8_blocks(n: int) -> int {
    (n + 31) / 32
}

/// The ternary weight at bit position `bit` of the masks of a
/// `rows x cols_raw` tensor: rows are `padded_cols(cols_raw)` bits apart and
/// the padding is zero.
pub open spec fn mask_weight(raw: Seq<u8>, rows: int, cols_raw: int, bit: int) -> int {
    let cols = padded_cols(cols_raw);
    let row = bit / cols;
    let col = bit % cols;
    if col < cols_raw && row < rows {
        elem_ternary(raw, row * cols_raw + col)
    } else {
        0
    }
}

/// A fully packed ternary weight tensor.
pub struct BitmaskTensor {
    pub rows: usize,
    /// Columns padded to a multiple of 64.
    pub cols: usize,
    /// Unpadded column count.
    pub cols_raw: usize,
    /// Bit `j` of word `w` set: weight `64 * w + j` is +1.
    pub pos_mask: Vec<u64>,
    /// Bit `j` of word `w` set: weight `64 * w + j` is -1.
    pub neg_mask: Vec<u64>,
    /// `rows * (cols / 64)`.
    pub mask_words: usize,
    /// Per-block scales, as f32 bit patterns.
    pub scale_bits: Vec<u32>,
}

/// What the conversion of `raw` into a `rows x cols_raw` bitmask tensor gives.
pub open spec fn bitmask_tensor_of(raw: Seq<u8>, rows: int, cols_raw: int, t: BitmaskTensor) -> bool {
    let cols = padded_cols(cols_raw);
    let words = rows * (cols / 64);
    &&& t.rows == rows
    &&& t.cols == cols
    &&& t.cols_raw == cols_raw
    &&& t.mask_words == words
    &&& t.pos_mask@.len() == words
    &&& t.neg_mask@.len() == words
    &&& forall|w: int, j: u64|
        0 <= w < words && j < 64 ==> (#[trigger] bit_set(t.pos_mask@[w], j) <==> mask_weight(
            raw,
            rows,
            cols_raw,
            w * 64 + j,
        ) == 1)
    &&& forall|w: int, j: u64|
        0 <= w < words && j < 64 ==> (#[trigger] bit_set(t.neg_mask@[w], j) <==> mask_weight(
            raw,
            rows,
            cols_raw,
            w * 64 + j,
        ) == -1)
    &&& t.scale_bits@ == Seq::new(
        q8_blocks(rows * cols_raw) as nat,
        |b: int| spec_f16_to_f32_bits(le_u16(raw, b * 34)),
    )
}

proof fn lemma_elem_bounds(bit: int, rows: int, cols: int, cols_raw: int, n_blocks: int)
    by (nonlinear_arith)
    requires
        0 <= bit < rows * cols,
        0 < cols,
        0 <= cols_raw <= cols,
        bit % cols < cols_raw,
        n_blocks == (rows * cols_raw + 31) / 32,
    ensures
        0 <= bit / cols < rows,
        0 <= (bit / cols) * cols_raw + bit % cols < rows * cols_raw,
        ((bit / cols) * cols_raw + bit % cols) / 32 < n_blocks,
        (((bit / cols) * cols_raw + bit % cols) / 32) * 34 + 2 + ((bit / cols) * cols_raw + bit
            % cols) % 32 < n_blocks * 34,
{
    let row = bit / cols;
    let col = bit % cols;
    assert(bit == row * cols + col);
    assert(row < rows);
    let e = row * cols_raw + col;
    assert(e < (row + 1) * cols_raw);
    assert((row + 1) * cols_raw <= rows * cols_raw);
    assert(e / 32 <= (rows * cols_raw - 1) / 32);
}

/// One word of each mask: the 64 weights from bit `64 * w` on.
fn mask_word(raw: &[u8], rows: usize, cols_raw: usize, cols: usize, w: usize) -> (r: (u64, u64))
    requires
        cols == padded_cols(cols_raw as int),
        cols > 0,
        rows * cols <= usize::MAX,
        rows * cols_raw <= usize::MAX,
        w < rows * (cols / 64),
        raw@.len() == q8_blocks(rows * cols_raw) * 34,
    ensures
        forall|j: u64|
            j < 64 ==> (#[trigger] bit_set(r.0, j) <==> mask_weight(
                raw@,
                rows as int,
                cols_raw as int,
                w * 64 + j,
            ) == 1),
        forall|j: u64|
            j < 64 ==> (#[trigger] bit_set(r.1, j) <==> mask_weight(
                raw@,
                rows as int,
                cols_raw as int,
                w * 64 + j,
            ) == -1),
{
    let _raw_len = raw.len();
    let mut pw: u64 = 0;
    let mut nw: u64 = 0;
    let ghost n_blocks = q8_blocks(rows * cols_raw);
    proof {
        assert(w * 64 + 64 <= rows * cols) by (nonlinear_arith)
            requires
                w < rows * (cols / 64),
                cols % 64 == 0,
                cols > 0,
        ;
        assert(cols % 64 == 0);
        assert forall|t: u64| t < 64 implies !bit_set(0u64, t) by {
            lemma_full_and_empty(t);
        }
    }
    let mut j: usize = 0;
    while j < 64
        invariant
            cols == padded_cols(cols_raw as int),
            cols > 0,
            rows * cols <= usize::MAX,
            rows * cols_raw <= usize::MAX,
            w * 64 + 64 <= rows * cols,
            n_blocks == q8_blocks(rows * cols_raw),
            raw@.len() == n_blocks * 34,
            raw@.len() <= usize::MAX,
            j <= 64,
            forall|t: u64|
                t < 64 ==> (#[trigger] bit_set(pw, t) <==> (t < j && mask_weight(
                    raw@,
                    rows as int,
                    cols_raw as int,
                    w * 64 + t,
                ) == 1)),
            forall|t: u64|
                t < 64 ==> (#[trigger] bit_set(nw, t) <==> (t < j && mask_weight(
                    raw@,
                    rows as int,
                    cols_raw as int,
                    w * 64 + t,
                ) == -1)),
        decreases 64 - j,
    {
        let bit = w * 64 + j;
        let row = bit / cols;
        let col = bit % cols;
        let ghost old_pw = pw;
        let ghost old_nw = nw;
        let mut t: i8 = 0;
        if col < cols_raw {
            proof {
                lemma_elem_bounds(bit as int, rows as int, cols as int, cols_raw as int, n_blocks);
            }
            let e = row * cols_raw + col;
            let off = (e / 32) * 34;
            let delta = raw[off] as u16 + 256 * (raw[off + 1] as u16);
            let q = raw[off + 2 + e % 32];
            t = ternary_weight(delta, q);
        }
        assert(t == mask_weight(raw@, rows as int, cols_raw as int, bit as int)) by {
            if col < cols_raw {
                lemma_elem_bounds(bit as int, rows as int, cols as int, cols_raw as int, n_blocks);
            }
        }
        let jj = j as u64;
        if t == 1 {
            pw = pw | (1u64 << jj);
        } else if t == -1 {
            nw = nw | (1u64 << jj);
        }
        proof {
            assert forall|s: u64| s < 64 implies (#[trigger] bit_set(pw, s) <==> (s < j + 1
                && mask_weight(raw@, rows as int, cols_raw as int, w * 64 + s) == 1)) by {
                if t == 1 {
                    lemma_set_bit(old_pw, jj, s);
                }
            }
            assert forall|s: u64| s < 64 implies (#[trigger] bit_set(nw, s) <==> (s < j + 1
                && mask_weight(raw@, rows as int, cols_raw as int, w * 64 + s) == -1)) by {
                if t == -1 {
                    lemma_set_bit(old_nw, jj, s);
                }
            }
        }
        j += 1;
    }
    (pw, nw)
}

/// Convert the raw Q8_0 data of a `rows x cols_raw` tensor into dual
/// bitmasks and per-block scales.
pub fn q8_blocks_to_ternary_bitmasks(raw: &[u8], rows: usize, cols_raw: usize) -> (t:
    BitmaskTensor)
    requires
        cols_raw + 63 <= usize::MAX,
        rows * padded_cols(cols_raw as int) <= usize::MAX,
        rows * cols_raw <= usize::MAX,
        raw@.len() == q8_blocks(rows * cols_raw) * 34,
    ensures
        bitmask_tensor_of(raw@, rows as int, cols_raw as int, t),
{
    let cols = (cols_raw + 63) & !63usize;
    assert(((cols_raw + 63) as usize) & !63usize == (((cols_raw + 63) as usize) / 64) * 64)
        by (bit_vector);
    let words_per_row = cols / 64;
    assert(rows * words_per_row <= rows * cols) by (nonlinear_arith)
        requires
            words_per_row <= cols,
    ;
    let mask_words = rows * words_per_row;
    let n_elems = rows * cols_raw;
    let n_blocks_total = n_elems / Q8_BLOCK_SIZE + if n_elems % Q8_BLOCK_SIZE != 0 {
        1
    } else {
        0
    };
    assert(n_blocks_total == q8_blocks(n_elems as int));

    let _raw_len = raw.len();
    let mut scale_bits: Vec<u32> = Vec::with_capacity(n_blocks_total);
    let mut b: usize = 0;
    while b < n_blocks_total
        invariant
            b <= n_blocks_total,
            raw@.len() == n_blocks_total * 34,
            raw@.len() <= usize::MAX,
            scale_bits@ == Seq::new(
                b as nat,
                |k: int| spec_f16_to_f32_bits(le_u16(raw@, k * 34)),
            ),
        decreases n_blocks_total - b,
    {
        assert(b * 34 + 34 <= n_blocks_total * 34) by (nonlinear_arith)
            requires
                b < n_blocks_total,
        ;
        let off = b * Q8_BLOCK_BYTES;
        let delta = raw[off] as u16 + 256 * (raw[off + 1] as u16);
        scale_bits.push(f16_to_f32_bits(delta));
        b += 1;
        assert(scale_bits@ =~= Seq::new(
            b as nat,
            |k: int| spec_f16_to_f32_bits(le_u16(raw@, k * 34)),
        ));
    }

    let mut pos_mask: Vec<u64> = Vec::with_capacity(mask_words);
    let mut neg_mask: Vec<u64> = Vec::with_capacity(mask_words);
    let mut w: usize = 0;
    while w < mask_words
        invariant
            w <= mask_words,
            mask_words == rows * (cols / 64),
            cols == padded_cols(cols_raw as int),
            rows * cols <= usize::MAX,
            rows * cols_raw <= usize::MAX,
            raw@.len() == q8_blocks(rows * cols_raw) * 34,
            pos_mask@.len() == w,
            neg_mask@.len() == w,
            forall|v: int, j: u64|
                0 <= v < w && j < 64 ==> (#[trigger] bit_set(pos_mask@[v], j) <==> mask_weight(
                    raw@,
                    rows as int,
                    cols_raw as int,
                    v * 64 + j,
                ) == 1),
            forall|v: int, j: u64|
                0 <= v < w && j < 64 ==> (#[trigger] bit_set(neg_mask@[v], j) <==> mask_weight(
                    raw@,
                    rows as int,
                    cols_raw as int,
                    v * 64 + j,
                ) == -1),
        decreases mask_words - w,
    {
        assert(cols / 64 > 0) by (nonlinear_arith)
            requires
                w < rows * (cols / 64),
                cols >= 0,
                rows >= 0,
        ;
        let (pw, nw) = mask_word(raw, rows, cols_raw, cols, w);
        pos_mask.push(pw);
        neg_mask.push(nw);
        w += 1;
    }
    BitmaskTensor {
        rows,
        cols,
        cols_raw,
        pos_mask,
        neg_mask,
        mask_words,
        scale_bits,
    }
}

/// The integer a metadata value holds, if it holds one.
pub open spec fn spec_extract_int(v: MetaModel) -> Option<u64> {
    match v {
        MetaModel::Uint64(x) => Some(x),
        MetaModel::UInt32(x) => Some(x as u64),
        MetaModel::Int32(x) => Some(x as u64),
        _ => None,
    }
}

/// The integer a metadata value holds (`Uint64`, `UInt32`, or `Int32` read
/// as `u64`), if it holds one.
pub fn extract_int(val: &MetadataValue) -> (r: Option<u64>)
    ensures
        r == spec_extract_int(val@),
{
    match val {
        MetadataValue::Uint64(x) => Some(*x),
        MetadataValue::UInt32(x) => Some(*x as u64),
        MetadataValue::Int32(x) => Some(*x as u64),
        _ => None,
    }
}

/// A model parameter: the value under `k1`, else under `k2`, if that value
/// is an integer; `default` otherwise.
pub open spec fn spec_hparam(
    m: Map<Seq<char>, MetaModel>,
    k1: Seq<char>,
    k2: Seq<char>,
    default: u64,
) -> u64 {
    let v = if m.contains_key(k1) {
        Some(m[k1])
    } else if m.contains_key(k2) {
        Some(m[k2])
    } else {
        None
    };
    match v {
        Some(x) => match spec_extract_int(x) {
            Some(n) => n,
            None => default,
        },
        None => default,
    }
}

fn hparam(header: &GgufHeader, k1: &str, k2: &str, default: u64) -> (r: u64)
    ensures
        r == spec_hparam(meta_view(header.metadata@), k1@, k2@, default),
{
    let v = match header.metadata.get(k1) {
        Some(v) => Some(v),
        None => header.metadata.get(k2),
    };
    match v {
        Some(x) => match extract_int(x) {
            Some(n) => n,
            None => default,
        },
        None => default,
    }
}

/// The model's hyper-parameters.
pub struct ModelHparams {
    pub n_ctx: u64,
    pub n_embd: u64,
    pub n_heads: u64,
    pub n_heads_kv: u64,
    pub n_layers: u64,
    pub head_dim: u64,
}

/// The head count the metadata gives.
pub open spec fn spec_n_heads(m: Map<Seq<char>, MetaModel>) -> u64 {
    spec_hparam(m, "llama.attention.head_count"@, "bitnet.attention.head_count"@, 32)
}

/// The head count the metadata gives, which the other parameters divide by.
pub fn head_count(header: &GgufHeader) -> (n: u64)
    ensures
        n == spec_n_heads(meta_view(header.metadata@)),
{
    hparam(header, "llama.attention.head_count", "bitnet.attention.head_count", 32)
}

/// Read the hyper-parameters from the metadata, LLaMA keys first, BitNet
/// keys second, with the engine's defaults.
pub fn model_hparams(header: &GgufHeader) -> (h: ModelHparams)
    requires
        spec_n_heads(meta_view(header.metadata@)) != 0,
    ensures
        ({
            let m = meta_view(header.metadata@);
            &&& h.n_ctx == spec_hparam(m, "llama.context_length"@, "bitnet.context_length"@, 2048)
            &&& h.n_embd == spec_hparam(
                m,
                "llama.embedding_length"@,
                "bitnet.embedding_length"@,
                4096,
            )
            &&& h.n_heads == spec_n_heads(m)
            &&& h.n_heads_kv == spec_hparam(
                m,
                "llama.attention.head_count_kv"@,
                "bitnet.attention.head_count_kv"@,
                h.n_heads,
            )
            &&& h.n_layers == spec_hparam(m, "llama.block_count"@, "bitnet.block_count"@, 32)
            &&& h.head_dim == h.n_embd / h.n_heads
        }),
{
    let n_ctx = hparam(header, "llama.context_length", "bitnet.context_length", 2048);
    let n_embd = hparam(header, "llama.embedding_length", "bitnet.embedding_length", 4096);
    let n_heads = hparam(header, "llama.attention.head_count", "bitnet.attention.head_count", 32);
    let n_heads_kv = hparam(
        header,
        "llama.attention.head_count_kv",
        "bitnet.attention.head_count_kv",
        n_heads,
    );
    let n_layers = hparam(header, "llama.block_count", "bitnet.block_count", 32);
    let head_dim = n_embd / n_heads;
    ModelHparams { n_ctx, n_embd, n_heads, n_heads_kv, n_layers, head_dim }
}

/// What the loader does with a tensor.
#[derive(PartialEq, Eq, Structural, Clone, Copy, Debug)]
pub enum TensorPlan {
    /// The token embedding table.
    Embedding,
    /// A normalisation vector.
    Norm,
    /// Not a ternary weight (no `weight` in its name, or an embedding).
    SkipNonTernary,
    /// A weight that is not Q8_0.
    SkipNotQ8,
    /// A Q8_0 weight, converted to bitmasks.
    Ternary,
}

/// The loader's decision for a tensor, from its name and type.
pub open spec fn spec_plan_tensor(name: Seq<char>, ggml_type: u32) -> TensorPlan {
    if name == "token_embd.weight"@ {
        TensorPlan::Embedding
    } else if contains_sub(name, "norm"@) {
        TensorPlan::Norm
    } else if !contains_sub(name, "weight"@) || contains_sub(name, "embed"@) {
        TensorPlan::SkipNonTernary
    } else if ggml_type != 8 {
        TensorPlan::SkipNotQ8
    } else {
        TensorPlan::Ternary
    }
}

/// The loader's decision for a tensor.
pub fn plan_tensor(info: &TensorInfo) -> (p: TensorPlan)
    ensures
        p == spec_plan_tensor(info.name@, info.ggml_type),
{
    let name = info.name.as_str();
    if str_equal(name, "token_embd.weight") {
        TensorPlan::Embedding
    } else if str_contains(name, "norm") {
        TensorPlan::Norm
    } else if !str_contains(name, "weight") || str_contains(name, "embed") {
        TensorPlan::SkipNonTernary
    } else if info.ggml_type != 8 {
        TensorPlan::SkipNotQ8
    } else {
        TensorPlan::Ternary
    }
}

/// `(rows, cols)` of a tensor's dimensions `[cols, rows, ...]`: two
/// dimensions, one (a single row), or three (the third ignored).
pub open spec fn spec_matrix_shape(d: Seq<u64>) -> Option<(usize, usize)> {
    if d.len() == 2 {
        Some((d[1] as usize, d[0] as usize))
    } else if d.len() == 1 {
        Some((1usize, d[0] as usize))
    } else if d.len() == 3 {
        Some((d[1] as usize, d[0] as usize))
    } else {
        None
    }
}

/// `(rows, cols)` of a tensor, when its dimensions give a matrix.
pub fn matrix_shape(dims: &Vec<u64>) -> (r: Option<(usize, usize)>)
    ensures
        r == spec_matrix_shape(dims@),
{
    if dims.len() == 2 {
        Some((dims[1] as usize, dims[0] as usize))
    } else if dims.len() == 1 {
        Some((1, dims[0] as usize))
    } else if dims.len() == 3 {
        Some((dims[1] as usize, dims[0] as usize))
    } else {
        None
    }
}

/// No weight of a converted tensor is both +1 and -1: the two masks never
/// share a set bit.
pub proof fn law_masks_disjoint(raw: Seq<u8>, rows: int, cols_raw: int, t: BitmaskTensor, w: int, j: u64)
    requires
        bitmask_tensor_of(raw, rows, cols_raw, t),
        0 <= w < t.mask_words,
        j < 64,
    ensures
        !(bit_set(t.pos_mask@[w], j) && bit_set(t.neg_mask@[w], j)),
{
    assert(bit_set(t.pos_mask@[w], j) <==> mask_weight(raw, rows, cols_raw, w * 64 + j) == 1);
    assert(bit_set(t.neg_mask@[w], j) <==> mask_weight(raw, rows, cols_raw, w * 64 + j) == -1);
}

/// The padding columns of a converted tensor are zero weights.
pub proof fn law_padding_is_zero(raw: Seq<u8>, rows: int, cols_raw: int, t: BitmaskTensor, row: int, col: int)
    requires
        bitmask_tensor_of(raw, rows, cols_raw, t),
        0 <= row < rows,
        cols_raw <= col < padded_cols(cols_raw),
        cols_raw >= 0,
    ensures
        !bit_set(t.pos_mask@[(row * padded_cols(cols_raw) + col) / 64], ((row * padded_cols(cols_raw) + col) % 64) as u64),
        !bit_set(t.neg_mask@[(row * padded_cols(cols_raw) + col) / 64], ((row * padded_cols(cols_raw) + col) % 64) as u64),
{
    let cols = padded_cols(cols_raw);
    let bit = row * cols + col;
    let w = bit / 64;
    let j = (bit % 64) as u64;
    assert(cols % 64 == 0) by (nonlinear_arith)
        requires
            cols == ((cols_raw + 63) / 64) * 64,
    ;
    assert(0 <= bit < rows * cols) by (nonlinear_arith)
        requires
            0 <= row < rows,
            0 <= col < cols,
            bit == row * cols + col,
    ;
    assert(w * 64 + j == bit);
    assert(bit / cols == row && bit % cols == col) by (nonlinear_arith)
        requires
            bit == row * cols + col,
            0 <= col < cols,
            0 <= row,
    ;
    assert(0 <= w < rows * (cols / 64)) by (nonlinear_arith)
        requires
            0 <= bit < rows * cols,
            w == bit / 64,
            cols % 64 == 0,
            cols >= 0,
    ;
    assert(mask_weight(raw, rows, cols_raw, w * 64 + j) == 0);
    assert(bit_set(t.pos_mask@[w], j) <==> mask_weight(raw, rows, cols_raw, w * 64 + j) == 1);
    assert(bit_set(t.neg_mask@[w], j) <==> mask_weight(raw, rows, cols_raw, w * 64 + j) == -1);
}

} // verus!

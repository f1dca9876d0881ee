//! The GGUF reader the engine loads models with.
//!
//! A GGUF file is a header (magic, version, tensor count, metadata count),
//! typed metadata key/value pairs, tensor descriptors, and the tensor data,
//! which starts at the first multiple of the alignment after the
//! descriptors.  This reader decodes strings leniently, keeps the metadata
//! types the engine uses and records the others as `Other`.
use vstd::prelude::*;
use vstd::hash_map::StringHashMap;
use crate::gguf::bytes::{
    copy_range, avail, le_u32, le_u64, read_u32_le, read_u64_le, GgufError, GGUF_MAGIC,
};
use crate::text::{spec_utf8_lossy, utf8_lossy};
use vstd::slice::SliceAdditionalExecFns;

verus! {

/// Default alignment of the tensor data; the metadata key
/// `general.alignment` overrides it.
pub const GGUF_ALIGNMENT: usize = 32;

/// The value type codes this reader assigns.
#[derive(Debug)]
pub enum GgufType {
    Uint8,
    Int8,
    Uint16,
    Int16,
    Uint32,
    Int32,
    Float32,
    Bool,
    String,
    Array,
    Uint64,
    Int64,
    Float64,
}

impl GgufType {
    /// The type's code in the file.
    pub fn code(&self) -> (c: u32)
        ensures
            c == match self {
                GgufType::Uint8 => 0u32,
                GgufType::Int8 => 1,
                GgufType::Uint16 => 2,
                GgufType::Int16 => 3,
                GgufType::Uint32 => 4,
                GgufType::Int32 => 5,
                GgufType::Float32 => 6,
                GgufType::Bool => 7,
                GgufType::String => 8,
                GgufType::Array => 9,
                GgufType::Uint64 => 10,
                GgufType::Int64 => 11,
                GgufType::Float64 => 12,
            },
    {
        match self {
            GgufType::Uint8 => 0,
            GgufType::Int8 => 1,
            GgufType::Uint16 => 2,
            GgufType::Int16 => 3,
            GgufType::Uint32 => 4,
            GgufType::Int32 => 5,
            GgufType::Float32 => 6,
            GgufType::Bool => 7,
            GgufType::String => 8,
            GgufType::Array => 9,
            GgufType::Uint64 => 10,
            GgufType::Int64 => 11,
            GgufType::Float64 => 12,
        }
    }
}

/// A tensor descriptor.
#[derive(Debug, Clone)]
pub struct TensorInfo {
    pub name: String,
    pub n_dims: u32,
    /// `[n_elements_dim_0, dim_1, ...]`
    pub dimensions: Vec<u64>,
    /// Quantization type (2 = Q4_0, 8 = Q8_0, 14 = Q4_K, ...).
    pub ggml_type: u32,
    /// Byte offset from the start of the tensor data section.
    pub data_offset: u64,
}

/// A metadata value.  A 32-bit float is kept as its IEEE-754 bit pattern.
#[derive(Debug)]
pub enum MetadataValue {
    UInt32(u32),
    Int32(i32),
    Float32(u32),
    String(String),
    Uint64(u64),
    Bool(bool),
    Array(Vec<MetadataValue>),
    Other,
}

/// The mathematical model of a [`MetadataValue`].
pub enum MetaModel {
    UInt32(u32),
    Int32(i32),
    Float32(u32),
    String(Seq<char>),
    Uint64(u64),
    Bool(bool),
    Array(Seq<MetaModel>),
    Other,
}

impl View for MetadataValue {
    type V = MetaModel;

    open spec fn view(&self) -> MetaModel
        decreases self, 1nat,
    {
        match self {
            MetadataValue::UInt32(x) => MetaModel::UInt32(*x),
            MetadataValue::Int32(x) => MetaModel::Int32(*x),
            MetadataValue::Float32(x) => MetaModel::Float32(*x),
            MetadataValue::String(s) => MetaModel::String(s@),
            MetadataValue::Uint64(x) => MetaModel::Uint64(*x),
            MetadataValue::Bool(b) => MetaModel::Bool(*b),
            MetadataValue::Array(v) => MetaModel::Array(values_view(v@)),
            MetadataValue::Other => MetaModel::Other,
        }
    }
}

/// The models of a sequence of values.
pub open spec fn values_view(s: Seq<MetadataValue>) -> Seq<MetaModel>
    decreases s, 0nat,
{
    if s.len() == 0 {
        Seq::empty()
    } else {
        seq![s[0].view()] + values_view(s.drop_first())
    }
}

/// `values_view` maps each value to its model.
pub proof fn lemma_values_view(s: Seq<MetadataValue>)
    ensures
        values_view(s).len() == s.len(),
        forall|i: int| 0 <= i < s.len() ==> #[trigger] values_view(s)[i] == s[i]@,
    decreases s.len(),
{
    if s.len() > 0 {
        lemma_values_view(s.drop_first());
        assert(values_view(s) == seq![s[0]@] + values_view(s.drop_first()));
        assert forall|i: int| 0 <= i < s.len() implies #[trigger] values_view(s)[i] == s[i]@ by {
            if i > 0 {
                assert(s.drop_first()[i - 1] == s[i]);
            }
        }
    }
}

/// The model of a tensor descriptor.
pub struct TensorModel {
    pub name: Seq<char>,
    pub n_dims: u32,
    pub dimensions: Seq<u64>,
    pub ggml_type: u32,
    pub data_offset: u64,
}

impl View for TensorInfo {
    type V = TensorModel;

    open spec fn view(&self) -> TensorModel {
        TensorModel {
            name: self.name@,
            n_dims: self.n_dims,
            dimensions: self.dimensions@,
            ggml_type: self.ggml_type,
            data_offset: self.data_offset,
        }
    }
}

/// The model of a parsed header.
pub struct HeaderModel {
    pub version: u32,
    pub tensor_count: u64,
    pub metadata: Map<Seq<char>, MetaModel>,
    pub tensors: Seq<TensorModel>,
    pub data_start: u64,
}

/// A string: a `u64` length, then that many bytes, decoded leniently.
pub open spec fn p_string(b: Seq<u8>, p: int) -> Result<(Seq<char>, int), GgufError> {
    if avail(b, p, 8) && avail(b, p + 8, le_u64(b, p) as usize as int) {
        let n = le_u64(b, p) as usize as int;
        Ok((spec_utf8_lossy(b.subrange(p + 8, p + 8 + n)), p + 8 + n))
    } else {
        Err(GgufError::UnexpectedEof)
    }
}

/// A `u32` at `p`.
pub open spec fn p_u32(b: Seq<u8>, p: int) -> Result<(u32, int), GgufError> {
    if avail(b, p, 4) {
        Ok((le_u32(b, p), p + 4))
    } else {
        Err(GgufError::UnexpectedEof)
    }
}

/// A `u64` at `p`.
pub open spec fn p_u64(b: Seq<u8>, p: int) -> Result<(u64, int), GgufError> {
    if avail(b, p, 8) {
        Ok((le_u64(b, p), p + 8))
    } else {
        Err(GgufError::UnexpectedEof)
    }
}

/// A metadata value of type `ty` at `p`.
pub open spec fn p_value(b: Seq<u8>, p: int, ty: u32) -> Result<(MetaModel, int), GgufError>
    decreases b.len() - p, 0nat, 0nat,
{
    if ty == 0 || ty == 1 || ty == 7 {
        if avail(b, p, 1) {
            Ok(
                (
                    if ty == 7 {
                        MetaModel::Bool(b[p] != 0)
                    } else {
                        MetaModel::Other
                    },
                    p + 1,
                ),
            )
        } else {
            Err(GgufError::UnexpectedEof)
        }
    } else if ty == 2 || ty == 3 {
        if avail(b, p, 2) {
            Ok((MetaModel::Other, p + 2))
        } else {
            Err(GgufError::UnexpectedEof)
        }
    } else if ty == 4 || ty == 5 || ty == 6 {
        match p_u32(b, p) {
            Ok((x, q)) => Ok(
                (
                    if ty == 4 {
                        MetaModel::UInt32(x)
                    } else if ty == 5 {
                        MetaModel::Int32(x as i32)
                    } else {
                        MetaModel::Float32(x)
                    },
                    q,
                ),
            ),
            Err(e) => Err(e),
        }
    } else if ty == 8 {
        match p_string(b, p) {
            Ok((s, q)) => Ok((MetaModel::String(s), q)),
            Err(e) => Err(e),
        }
    } else if ty == 9 {
        if avail(b, p, 12) {
            match p_array(b, p + 12, le_u32(b, p), le_u64(b, p + 4) as usize as nat) {
                Ok((vs, q)) => Ok((MetaModel::Array(vs), q)),
                Err(e) => Err(e),
            }
        } else {
            Err(GgufError::UnexpectedEof)
        }
    } else if ty == 10 {
        match p_u64(b, p) {
            Ok((x, q)) => Ok((MetaModel::Uint64(x), q)),
            Err(e) => Err(e),
        }
    } else if ty == 11 || ty == 12 {
        if avail(b, p, 8) {
            Ok((MetaModel::Other, p + 8))
        } else {
            Err(GgufError::UnexpectedEof)
        }
    } else {
        Err(GgufError::UnknownValueType(ty))
    }
}

/// `n` values of type `ty` in a row, from `p` on.
pub open spec fn p_array(b: Seq<u8>, p: int, ty: u32, n: nat) -> Result<
    (Seq<MetaModel>, int),
    GgufError,
>
    decreases b.len() - p, 1nat, n,
{
    if n == 0 {
        Ok((Seq::empty(), p))
    } else {
        match p_value(b, p, ty) {
            Err(e) => Err(e),
            Ok((v, q)) => if p <= q <= b.len() {
                match p_array(b, q, ty, (n - 1) as nat) {
                    Ok((vs, r)) => Ok((seq![v] + vs, r)),
                    Err(e) => Err(e),
                }
            } else {
                Err(GgufError::UnexpectedEof)
            },
        }
    }
}

/// Pushing a value appends its model.
pub proof fn lemma_values_view_push(s: Seq<MetadataValue>, x: MetadataValue)
    ensures
        values_view(s.push(x)) == values_view(s).push(x@),
{
    lemma_values_view(s);
    lemma_values_view(s.push(x));
    assert(values_view(s.push(x)) =~= values_view(s).push(x@)) by {
        assert forall|i: int| 0 <= i < s.len() + 1 implies values_view(s.push(x))[i] == values_view(
            s,
        ).push(x@)[i] by {
            assert(s.push(x)[i] == if i < s.len() {
                s[i]
            } else {
                x
            });
        }
    }
}

/// One more value of an array, read: the accumulated models grow by it.
pub proof fn lemma_p_array_step(
    b: Seq<u8>,
    cur: int,
    ty: u32,
    rest: nat,
    acc: Seq<MetaModel>,
    v: MetaModel,
    q: int,
)
    requires
        rest > 0,
        p_value(b, cur, ty) == Ok::<(MetaModel, int), GgufError>((v, q)),
        cur <= q <= b.len(),
    ensures
        (match p_array(b, cur, ty, rest) {
            Ok((vs, r)) => Ok((acc + vs, r)),
            Err(e) => Err(e),
        }) == (match p_array(b, q, ty, (rest - 1) as nat) {
            Ok((vs, r)) => Ok((acc.push(v) + vs, r)),
            Err(e) => Err::<(Seq<MetaModel>, int), GgufError>(e),
        }),
{
    if let Ok((vs, r)) = p_array(b, q, ty, (rest - 1) as nat) {
        assert(acc + (seq![v] + vs) =~= acc.push(v) + vs);
    }
}

/// A value ends after it starts and within the input.
pub proof fn lemma_p_value_advances(b: Seq<u8>, p: int, ty: u32)
    requires
        0 <= p,
    ensures
        p_value(b, p, ty) matches Ok((v, q)) ==> p < q <= b.len(),
    decreases b.len() - p, 0nat, 0nat,
{
    if ty == 9 && avail(b, p, 12) {
        lemma_p_array_advances(b, p + 12, le_u32(b, p), le_u64(b, p + 4) as usize as nat);
    }
}

/// An array ends at or after it starts, within the input, with `n` values.
pub proof fn lemma_p_array_advances(b: Seq<u8>, p: int, ty: u32, n: nat)
    requires
        0 <= p <= b.len(),
    ensures
        p_array(b, p, ty, n) matches Ok((vs, q)) ==> p <= q <= b.len() && vs.len() == n,
    decreases b.len() - p, 1nat, n,
{
    if n > 0 {
        lemma_p_value_advances(b, p, ty);
        if let Ok((v, q)) = p_value(b, p, ty) {
            if p <= q <= b.len() {
                lemma_p_array_advances(b, q, ty, (n - 1) as nat);
            }
        }
    }
}

/// `n` key/value pairs from `p` on: a key string, a `u32` type, a value.
pub open spec fn p_kvs(b: Seq<u8>, p: int, n: nat) -> Result<
    (Seq<(Seq<char>, MetaModel)>, int),
    GgufError,
>
    decreases n,
{
    if n == 0 {
        Ok((Seq::empty(), p))
    } else {
        match p_kvs(b, p, (n - 1) as nat) {
            Err(e) => Err(e),
            Ok((kvs, q)) => match p_string(b, q) {
                Err(e) => Err(e),
                Ok((k, q1)) => match p_u32(b, q1) {
                    Err(e) => Err(e),
                    Ok((ty, q2)) => match p_value(b, q2, ty) {
                        Err(e) => Err(e),
                        Ok((v, q3)) => Ok((kvs.push((k, v)), q3)),
                    },
                },
            },
        }
    }
}

/// The map the pairs build, a later key replacing an earlier one.
pub open spec fn kv_map(kvs: Seq<(Seq<char>, MetaModel)>) -> Map<Seq<char>, MetaModel>
    decreases kvs.len(),
{
    if kvs.len() == 0 {
        Map::empty()
    } else {
        kv_map(kvs.drop_last()).insert(kvs.last().0, kvs.last().1)
    }
}

/// `n` dimensions (`u64` each) from `p` on.
pub open spec fn p_dims(b: Seq<u8>, p: int, n: nat) -> Result<(Seq<u64>, int), GgufError>
    decreases n,
{
    if n == 0 {
        Ok((Seq::empty(), p))
    } else {
        match p_dims(b, p, (n - 1) as nat) {
            Err(e) => Err(e),
            Ok((ds, q)) => match p_u64(b, q) {
                Err(e) => Err(e),
                Ok((d, q1)) => Ok((ds.push(d), q1)),
            },
        }
    }
}

/// A tensor descriptor at `p`: name, dimension count, dimensions, type,
/// data offset.
pub open spec fn p_tensor(b: Seq<u8>, p: int) -> Result<(TensorModel, int), GgufError> {
    match p_string(b, p) {
        Err(e) => Err(e),
        Ok((name, q1)) => match p_u32(b, q1) {
            Err(e) => Err(e),
            Ok((n_dims, q2)) => match p_dims(b, q2, n_dims as nat) {
                Err(e) => Err(e),
                Ok((dims, q3)) => match p_u32(b, q3) {
                    Err(e) => Err(e),
                    Ok((ty, q4)) => match p_u64(b, q4) {
                        Err(e) => Err(e),
                        Ok((off, q5)) => Ok(
                            (
                                TensorModel {
                                    name,
                                    n_dims,
                                    dimensions: dims,
                                    ggml_type: ty,
                                    data_offset: off,
                                },
                                q5,
                            ),
                        ),
                    },
                },
            },
        },
    }
}

/// `n` tensor descriptors from `p` on.
pub open spec fn p_tensors(b: Seq<u8>, p: int, n: nat) -> Result<(Seq<TensorModel>, int), GgufError>
    decreases n,
{
    if n == 0 {
        Ok((Seq::empty(), p))
    } else {
        match p_tensors(b, p, (n - 1) as nat) {
            Err(e) => Err(e),
            Ok((ts, q)) => match p_tensor(b, q) {
                Err(e) => Err(e),
                Ok((t, q1)) => Ok((ts.push(t), q1)),
            },
        }
    }
}

/// The alignment the metadata asks for.
pub open spec fn spec_alignment(m: Map<Seq<char>, MetaModel>) -> usize {
    if m.contains_key("general.alignment"@) {
        match m["general.alignment"@] {
            MetaModel::UInt32(a) => a as usize,
            _ => GGUF_ALIGNMENT,
        }
    } else {
        GGUF_ALIGNMENT
    }
}

/// `pos` rounded up to a multiple of the alignment `a`, the addition
/// wrapping at 64 bits as the reader's does; an alignment of zero gives 0,
/// as the reader's `(pos + (a - 1)) & !(a - 1)` does when `a - 1` wraps.
pub open spec fn align_up(pos: u64, a: u64) -> u64 {
    if a == 0 {
        0
    } else if pos % a == 0 {
        pos
    } else {
        vstd::wrapping::u64_specs::wrapping_add(pos, (a - pos % a) as u64)
    }
}

/// The header a file's bytes describe.
pub open spec fn p_header(b: Seq<u8>) -> Result<HeaderModel, GgufError> {
    if !avail(b, 0, 4) {
        Err(GgufError::UnexpectedEof)
    } else if le_u32(b, 0) != GGUF_MAGIC {
        Err(GgufError::BadMagic(le_u32(b, 0)))
    } else if !avail(b, 4, 20) {
        Err(GgufError::UnexpectedEof)
    } else {
        let version = le_u32(b, 4);
        let tensor_count = le_u64(b, 8);
        let kv_count = le_u64(b, 16);
        match p_kvs(b, 24, kv_count as nat) {
            Err(e) => Err(e),
            Ok((kvs, q)) => {
                let metadata = kv_map(kvs);
                match p_tensors(b, q, tensor_count as nat) {
                    Err(e) => Err(e),
                    Ok((tensors, q1)) => Ok(
                        HeaderModel {
                            version,
                            tensor_count,
                            metadata,
                            tensors,
                            data_start: align_up(q1 as u64, spec_alignment(metadata) as u64),
                        },
                    ),
                }
            },
        }
    }
}

/// The header of a GGUF file.
pub struct GgufHeader {
    pub version: u32,
    pub tensor_count: u64,
    pub metadata: StringHashMap<MetadataValue>,
    pub tensors: Vec<TensorInfo>,
    /// Byte offset where the tensor data starts (after alignment padding).
    pub data_start: u64,
}

/// The models of the metadata's values.
pub open spec fn meta_view(m: Map<Seq<char>, MetadataValue>) -> Map<Seq<char>, MetaModel> {
    m.map_values(|v: MetadataValue| v@)
}

/// The models of the tensor descriptors.
pub open spec fn tensors_view(v: Seq<TensorInfo>) -> Seq<TensorModel> {
    v.map_values(|t: TensorInfo| t@)
}

impl GgufHeader {
    pub open spec fn model(&self) -> HeaderModel {
        HeaderModel {
            version: self.version,
            tensor_count: self.tensor_count,
            metadata: meta_view(self.metadata@),
            tensors: tensors_view(self.tensors@),
            data_start: self.data_start,
        }
    }
}

/// A parsed GGUF header.  The file's bytes stay with the caller, who hands
/// them back to read tensor data.
pub struct GgufParser {
    pub header: GgufHeader,
}

/// A string at `p`.
fn read_gguf_string(b: &[u8], p: usize) -> (r: Result<(String, usize), GgufError>)
    ensures
        match p_string(b@, p as int) {
            Ok((s, q)) => r matches Ok((t, q2)) && t@ == s && q2 == q,
            Err(e) => r == Err::<(String, usize), GgufError>(e),
        },
{
    let _blen = b.len();
    let len = read_u64_le(b, p)? as usize;
    if !crate::gguf::bytes::has_bytes(b, p + 8, len) {
        return Err(GgufError::UnexpectedEof);
    }
    let buf = copy_range(b, p + 8, len);
    let s = utf8_lossy(buf.as_slice());
    Ok((s, p + 8 + len))
}

/// A metadata value of type `ty` at `p`.
fn read_metadata_value(b: &[u8], p: usize, ty: u32) -> (r: Result<(MetadataValue, usize), GgufError>)
    ensures
        match p_value(b@, p as int, ty) {
            Ok((v, q)) => r matches Ok((w, q2)) && w@ == v && q2 == q,
            Err(e) => r == Err::<(MetadataValue, usize), GgufError>(e),
        },
    decreases b@.len() - p,
{
    let _blen = b.len();
    if ty == 0 || ty == 1 || ty == 7 {
        if !crate::gguf::bytes::has_bytes(b, p, 1) {
            return Err(GgufError::UnexpectedEof);
        }
        let v = if ty == 7 {
            MetadataValue::Bool(b[p] != 0)
        } else {
            MetadataValue::Other
        };
        Ok((v, p + 1))
    } else if ty == 2 || ty == 3 {
        if !crate::gguf::bytes::has_bytes(b, p, 2) {
            return Err(GgufError::UnexpectedEof);
        }
        Ok((MetadataValue::Other, p + 2))
    } else if ty == 4 {
        let x = read_u32_le(b, p)?;
        Ok((MetadataValue::UInt32(x), p + 4))
    } else if ty == 5 {
        let x = read_u32_le(b, p)?;
        Ok((MetadataValue::Int32(x as i32), p + 4))
    } else if ty == 6 {
        let x = read_u32_le(b, p)?;
        Ok((MetadataValue::Float32(x), p + 4))
    } else if ty == 8 {
        let (s, q) = read_gguf_string(b, p)?;
        Ok((MetadataValue::String(s), q))
    } else if ty == 9 {
        let arr_type = read_u32_le(b, p)?;
        let arr_len = read_u64_le(b, p + 4)? as usize;
        let ghost n = arr_len as nat;
        let ghost start = p + 12;
        let mut arr: Vec<MetadataValue> = Vec::new();
        let mut cur: usize = p + 12;
        let mut i: usize = 0;
        proof {
            lemma_values_view(arr@);
        }
        while i < arr_len
            invariant
                ty == 9,
                avail(b@, p as int, 12),
                start == p + 12,
                start <= cur <= b@.len(),
                i <= arr_len,
                n == arr_len,
                arr_type == le_u32(b@, p as int),
                n == le_u64(b@, p as int + 4) as usize as nat,
                p_array(b@, start, arr_type, n) == match p_array(
                    b@,
                    cur as int,
                    arr_type,
                    (n - i) as nat,
                ) {
                    Ok((vs, r)) => Ok((values_view(arr@) + vs, r)),
                    Err(e) => Err(e),
                },
            decreases arr_len - i,
        {
            proof {
                lemma_p_value_advances(b@, cur as int, arr_type);
            }
            let ghost rest = (n - i) as nat;
            let ghost acc = values_view(arr@);
            let (v, q) = match read_metadata_value(b, cur, arr_type) {
                Ok(x) => x,
                Err(e) => {
                    assert(p_array(b@, cur as int, arr_type, rest) == Err::<
                        (Seq<MetaModel>, int),
                        GgufError,
                    >(e));
                    assert(p_array(b@, start, arr_type, n) == Err::<
                        (Seq<MetaModel>, int),
                        GgufError,
                    >(e));
                    assert(ty == 9);
                    assert(p_value(b@, p as int, ty) == Err::<(MetaModel, int), GgufError>(e));
                    return Err(e);
                },
            };
            proof {
                lemma_p_array_step(b@, cur as int, arr_type, rest, acc, v@, q as int);
                lemma_values_view_push(arr@, v);
            }
            arr.push(v);
            cur = q;
            i += 1;
        }
        proof {
            assert((n - i) as nat == 0);
            assert(values_view(arr@) + Seq::<MetaModel>::empty() =~= values_view(arr@));
        }
        Ok((MetadataValue::Array(arr), cur))
    } else if ty == 10 {
        let x = read_u64_le(b, p)?;
        Ok((MetadataValue::Uint64(x), p + 8))
    } else if ty == 11 || ty == 12 {
        if !crate::gguf::bytes::has_bytes(b, p, 8) {
            return Err(GgufError::UnexpectedEof);
        }
        Ok((MetadataValue::Other, p + 8))
    } else {
        Err(GgufError::UnknownValueType(ty))
    }
}


/// Once reading the pairs fails, reading more of them fails the same way.
proof fn lemma_p_kvs_err(b: Seq<u8>, p: int, j: nat, n: nat)
    requires
        j <= n,
        p_kvs(b, p, j) is Err,
    ensures
        p_kvs(b, p, n) == p_kvs(b, p, j),
    decreases n,
{
    if n > j {
        lemma_p_kvs_err(b, p, j, (n - 1) as nat);
    }
}

/// Once reading dimensions fails, reading more of them fails the same way.
pub proof fn lemma_p_dims_err(b: Seq<u8>, p: int, j: nat, n: nat)
    requires
        j <= n,
        p_dims(b, p, j) is Err,
    ensures
        p_dims(b, p, n) == p_dims(b, p, j),
    decreases n,
{
    if n > j {
        lemma_p_dims_err(b, p, j, (n - 1) as nat);
    }
}

/// Once reading descriptors fails, reading more of them fails the same way.
proof fn lemma_p_tensors_err(b: Seq<u8>, p: int, j: nat, n: nat)
    requires
        j <= n,
        p_tensors(b, p, j) is Err,
    ensures
        p_tensors(b, p, n) == p_tensors(b, p, j),
    decreases n,
{
    if n > j {
        lemma_p_tensors_err(b, p, j, (n - 1) as nat);
    }
}

/// Dimensions at `p`.
pub(crate) fn read_dims(b: &[u8], p: usize, n: u32) -> (r: Result<(Vec<u64>, usize), GgufError>)
    ensures
        match p_dims(b@, p as int, n as nat) {
            Ok((ds, q)) => r matches Ok((v, q2)) && v@ == ds && q2 == q,
            Err(e) => r == Err::<(Vec<u64>, usize), GgufError>(e),
        },
{
    let mut dims: Vec<u64> = Vec::new();
    let mut cur = p;
    let mut i: u32 = 0;
    while i < n
        invariant
            i <= n,
            p_dims(b@, p as int, i as nat) == Ok::<(Seq<u64>, int), GgufError>(
                (dims@, cur as int),
            ),
        decreases n - i,
    {
        match read_u64_le(b, cur) {
            Ok(d) => {
                dims.push(d);
                cur = cur + 8;
            },
            Err(e) => {
                proof {
                    lemma_p_dims_err(b@, p as int, (i + 1) as nat, n as nat);
                }
                return Err(e);
            },
        }
        i += 1;
    }
    Ok((dims, cur))
}

/// A tensor descriptor at `p`.
fn read_tensor_info(b: &[u8], p: usize) -> (r: Result<(TensorInfo, usize), GgufError>)
    ensures
        match p_tensor(b@, p as int) {
            Ok((t, q)) => r matches Ok((v, q2)) && v@ == t && q2 == q,
            Err(e) => r == Err::<(TensorInfo, usize), GgufError>(e),
        },
{
    let (name, q1) = read_gguf_string(b, p)?;
    let n_dims = read_u32_le(b, q1)?;
    let (dimensions, q3) = read_dims(b, q1 + 4, n_dims)?;
    let ggml_type = read_u32_le(b, q3)?;
    let data_offset = read_u64_le(b, q3 + 4)?;
    Ok((TensorInfo { name, n_dims, dimensions, ggml_type, data_offset }, q3 + 12))
}

/// The product of the dimensions.
pub open spec fn dims_product(d: Seq<u64>) -> int
    decreases d.len(),
{
    if d.len() == 0 {
        1
    } else {
        dims_product(d.drop_last()) * d.last()
    }
}

/// Every running product of the dimensions fits in a `u64`.
pub open spec fn dims_product_fits(d: Seq<u64>) -> bool {
    forall|k: int| 0 <= k <= d.len() ==> #[trigger] dims_product(d.take(k)) <= u64::MAX
}

/// Bytes of `n` elements of type `ty`, per this reader's table.
pub open spec fn spec_tensor_byte_size(ty: u32, n: usize) -> int {
    if ty == 0 {
        n * 4
    } else if ty == 1 || ty == 30 {
        n * 2
    } else if ty == 2 {
        (n / 32) * 18
    } else if ty == 8 {
        (n / 32) * 34
    } else {
        (n / 256) * 144
    }
}

/// The types this reader can size.
pub open spec fn known_type(ty: u32) -> bool {
    ty == 0 || ty == 1 || ty == 2 || ty == 8 || ty == 14 || ty == 30
}

impl GgufParser {
    /// Reads the header from the bytes of a GGUF file.
    pub fn open(b: &[u8]) -> (r: Result<GgufParser, GgufError>)
        ensures
            match p_header(b@) {
                Ok(h) => r matches Ok(parser) && parser.header.model() == h,
                Err(e) => r matches Err(e2) && e2 == e,
            },
    {
        let _blen = b.len();
        let magic = read_u32_le(b, 0)?;
        if magic != GGUF_MAGIC {
            return Err(GgufError::BadMagic(magic));
        }
        if !crate::gguf::bytes::has_bytes(b, 4, 20) {
            return Err(GgufError::UnexpectedEof);
        }
        let version = read_u32_le(b, 4)?;
        let tensor_count = read_u64_le(b, 8)?;
        let kv_count = read_u64_le(b, 16)?;

        let mut metadata: StringHashMap<MetadataValue> = StringHashMap::new();
        let ghost mut kvs: Seq<(Seq<char>, MetaModel)> = Seq::empty();
        let mut cur: usize = 24;
        let mut i: u64 = 0;
        assert(meta_view(metadata@) =~= kv_map(kvs));
        while i < kv_count
            invariant
                i <= kv_count,
                avail(b@, 0, 24),
                le_u32(b@, 0) == GGUF_MAGIC,
                version == le_u32(b@, 4),
                tensor_count == le_u64(b@, 8),
                kv_count == le_u64(b@, 16),
                p_kvs(b@, 24, i as nat) == Ok::<(Seq<(Seq<char>, MetaModel)>, int), GgufError>(
                    (kvs, cur as int),
                ),
                meta_view(metadata@) == kv_map(kvs),
            decreases kv_count - i,
        {
            let step = read_kv(b, cur);
            match step {
                Ok((key, val, q)) => {
                    let ghost old_kvs = kvs;
                    let ghost old_map = metadata@;
                    proof {
                        kvs = kvs.push((key@, val@));
                        assert(kvs.drop_last() =~= old_kvs);
                    }
                    metadata.insert(key, val);
                    proof {
                        assert(meta_view(metadata@) =~= meta_view(old_map).insert(key@, val@));
                        assert(meta_view(metadata@) =~= kv_map(kvs));
                    }
                    cur = q;
                },
                Err(e) => {
                    proof {
                        lemma_p_kvs_err(b@, 24, (i + 1) as nat, kv_count as nat);
                    }
                    return Err(e);
                },
            }
            i += 1;
        }
        let ghost metadata_model = kv_map(kvs);

        let alignment: usize = match metadata.get("general.alignment") {
            Some(MetadataValue::UInt32(a)) => *a as usize,
            _ => GGUF_ALIGNMENT,
        };
        assert(alignment == spec_alignment(metadata_model));

        let mut tensors: Vec<TensorInfo> = Vec::new();
        let ghost tensors_start = cur as int;
        let mut j: u64 = 0;
        assert(tensors_view(tensors@) =~= Seq::<TensorModel>::empty());
        while j < tensor_count
            invariant
                j <= tensor_count,
                avail(b@, 0, 24),
                le_u32(b@, 0) == GGUF_MAGIC,
                version == le_u32(b@, 4),
                tensor_count == le_u64(b@, 8),
                kv_count == le_u64(b@, 16),
                p_kvs(b@, 24, kv_count as nat) == Ok::<
                    (Seq<(Seq<char>, MetaModel)>, int),
                    GgufError,
                >((kvs, tensors_start)),
                p_tensors(b@, tensors_start, j as nat) == Ok::<(Seq<TensorModel>, int), GgufError>(
                    (tensors_view(tensors@), cur as int),
                ),
            decreases tensor_count - j,
        {
            match read_tensor_info(b, cur) {
                Ok((t, q)) => {
                    let ghost old_ts = tensors@;
                    let ghost tm = t@;
                    tensors.push(t);
                    assert(tensors_view(tensors@) =~= tensors_view(old_ts).push(tm));
                    cur = q;
                },
                Err(e) => {
                    proof {
                        lemma_p_tensors_err(b@, tensors_start, (j + 1) as nat, tensor_count as nat);
                    }
                    return Err(e);
                },
            }
            j += 1;
        }

        let data_start = align_up_exec(cur as u64, alignment as u64);
        let header = GgufHeader { version, tensor_count, metadata, tensors, data_start };
        Ok(GgufParser { header })
    }

    /// Bytes the tensor `idx` occupies, per its type.
    pub fn tensor_byte_size(&self, idx: usize) -> (size: usize)
        requires
            idx < self.header.tensors@.len(),
            known_type(self.header.tensors@[idx as int].ggml_type),
            dims_product_fits(self.header.tensors@[idx as int].dimensions@),
            spec_tensor_byte_size(
                self.header.tensors@[idx as int].ggml_type,
                dims_product(self.header.tensors@[idx as int].dimensions@) as u64 as usize,
            ) <= usize::MAX,
        ensures
            size == spec_tensor_byte_size(
                self.header.tensors@[idx as int].ggml_type,
                dims_product(self.header.tensors@[idx as int].dimensions@) as u64 as usize,
            ),
    {
        let info = &self.header.tensors[idx];
        let n_elements = product_of(&info.dimensions);
        let n = n_elements as usize;
        match info.ggml_type {
            0 => n * 4,
            1 => n * 2,
            2 => (n / 32) * 18,
            8 => (n / 32) * 34,
            14 => (n / 256) * 144,
            _ => n * 2,
        }
    }

    /// Copy tensor `idx` out of the file's bytes into `dest`, returning its
    /// size.  Fails when `dest` cannot hold it or the file ends before it.
    pub fn read_tensor_into(&self, file: &[u8], idx: usize, dest: &mut [u8]) -> (r: Result<
        usize,
        GgufError,
    >)
        requires
            idx < self.header.tensors@.len(),
            known_type(self.header.tensors@[idx as int].ggml_type),
            dims_product_fits(self.header.tensors@[idx as int].dimensions@),
            spec_tensor_byte_size(
                self.header.tensors@[idx as int].ggml_type,
                dims_product(self.header.tensors@[idx as int].dimensions@) as u64 as usize,
            ) <= usize::MAX,
            self.header.data_start + self.header.tensors@[idx as int].data_offset
                <= u64::MAX,
        ensures
            ({
                let t = self.header.tensors@[idx as int];
                let size = spec_tensor_byte_size(
                    t.ggml_type,
                    dims_product(t.dimensions@) as u64 as usize,
                );
                let start = self.header.data_start + t.data_offset;
                if old(dest)@.len() < size {
                    r == Err::<usize, GgufError>(
                        GgufError::BufferTooSmall { need: size as usize, have: old(dest)@.len() as usize },
                    ) && final(dest)@ == old(dest)@
                } else if start + size > file@.len() {
                    r == Err::<usize, GgufError>(GgufError::UnexpectedEof)
                } else {
                    &&& r == Ok::<usize, GgufError>(size as usize)
                    &&& final(dest)@ == file@.subrange(start, start + size) + old(dest)@.subrange(
                        size,
                        old(dest)@.len() as int,
                    )
                }
            }),
            final(dest)@.len() == old(dest)@.len(),
    {
        let byte_size = self.tensor_byte_size(idx);
        let dest_len = dest.len();
        if dest_len < byte_size {
            return Err(GgufError::BufferTooSmall { need: byte_size, have: dest_len });
        }
        let abs_offset = self.header.data_start + self.header.tensors[idx].data_offset;
        let file_len = file.len();
        if abs_offset > file_len as u64 || (file_len as u64) - abs_offset < byte_size as u64 {
            return Err(GgufError::UnexpectedEof);
        }
        let start = abs_offset as usize;
        let mut i: usize = 0;
        while i < byte_size
            invariant
                i <= byte_size,
                file_len == file@.len(),
                byte_size <= dest@.len(),
                dest@.len() == old(dest)@.len(),
                start + byte_size <= file@.len(),
                forall|k: int| 0 <= k < i ==> #[trigger] dest@[k] == file@[start + k],
                forall|k: int| byte_size <= k < dest@.len() ==> #[trigger] dest@[k] == old(
                    dest,
                )@[k],
            decreases byte_size - i,
        {
            dest.set(i, file[start + i]);
            i += 1;
        }
        assert(dest@ =~= file@.subrange(start as int, start + byte_size) + old(dest)@.subrange(
            byte_size as int,
            old(dest)@.len() as int,
        ));
        Ok(byte_size)
    }
}

/// The product of `d`, which the caller knows fits.
pub(crate) fn product_of(d: &Vec<u64>) -> (r: u64)
    requires
        dims_product_fits(d@),
    ensures
        r == dims_product(d@),
{
    let mut acc: u64 = 1;
    let mut i: usize = 0;
    assert(d@.take(0) =~= Seq::<u64>::empty());
    while i < d.len()
        invariant
            i <= d@.len(),
            dims_product_fits(d@),
            acc == dims_product(d@.take(i as int)),
        decreases d@.len() - i,
    {
        assert(d@.take(i + 1).drop_last() =~= d@.take(i as int));
        assert(dims_product(d@.take(i + 1)) <= u64::MAX);
        acc = acc * d[i];
        i += 1;
    }
    assert(d@.take(d@.len() as int) =~= d@);
    acc
}

/// A key/value pair at `p`: key string, `u32` type code, value.
fn read_kv(b: &[u8], p: usize) -> (r: Result<(String, MetadataValue, usize), GgufError>)
    ensures
        match p_string(b@, p as int) {
            Err(e) => r == Err::<(String, MetadataValue, usize), GgufError>(e),
            Ok((k, q1)) => match p_u32(b@, q1) {
                Err(e) => r == Err::<(String, MetadataValue, usize), GgufError>(e),
                Ok((ty, q2)) => match p_value(b@, q2, ty) {
                    Err(e) => r == Err::<(String, MetadataValue, usize), GgufError>(e),
                    Ok((v, q3)) => r matches Ok((key, val, q)) && key@ == k && val@ == v && q
                        == q3,
                },
            },
        },
{
    let (key, q1) = read_gguf_string(b, p)?;
    let ty = read_u32_le(b, q1)?;
    let (val, q3) = read_metadata_value(b, q1 + 4, ty)?;
    Ok((key, val, q3))
}

/// A 32-bit scalar metadata value is read from the four bytes at `p`, the
/// least significant first: type 4 as the unsigned number they spell, type
/// 5 as that number in two's complement (less 2^32 when its top bit is
/// set), type 6 as the bit pattern of a float; the next item starts four
/// bytes on.
pub proof fn law_scalar_metadata_values(b: Seq<u8>, p: int)
    requires
        0 <= p,
        p + 4 <= b.len(),
    ensures
        ({
            let u = b[p] as int + 256 * b[p + 1] as int + 65536 * b[p + 2] as int + 16777216 * b[p
                + 3] as int;
            let s = if u >= 0x8000_0000 {
                u - 0x1_0000_0000
            } else {
                u
            };
            &&& p_value(b, p, 4) matches Ok((MetaModel::UInt32(x), q)) && x as int == u && q == p + 4
            &&& p_value(b, p, 5) matches Ok((MetaModel::Int32(t), q)) && t as int == s && q == p + 4
            &&& p_value(b, p, 6) matches Ok((MetaModel::Float32(f), q)) && f as int == u && q == p + 4
        }),
{
    let u = b[p] as int + 256 * b[p + 1] as int + 65536 * b[p + 2] as int + 16777216 * b[p + 3] as int;
    assert(0 <= u < 0x1_0000_0000);
    let x = le_u32(b, p);
    assert(x as int == u);
    assert((x as i32) as int == if x >= 0x8000_0000 {
        x as int - 0x1_0000_0000
    } else {
        x as int
    }) by (bit_vector);
}

/// `pos` rounded up to a multiple of `a` (see [`align_up`]).
fn align_up_exec(pos: u64, a: u64) -> (r: u64)
    ensures
        r == align_up(pos, a),
{
    if a == 0 {
        0
    } else {
        let rem = pos % a;
        if rem == 0 {
            pos
        } else {
            pos.wrapping_add(a - rem)
        }
    }
}

/// With a nonzero alignment and no wrap-around, the tensor data starts at
/// the first multiple of the alignment at or after the end of the
/// descriptors.
pub proof fn law_data_start_aligned(pos: u64, a: u64)
    requires
        a > 0,
        pos + (a - 1) <= u64::MAX,
    ensures
        align_up(pos, a) % a == 0,
        pos <= align_up(pos, a) < pos + a,
{
    let r = pos % a;
    if r != 0 {
        let x = pos + (a - r);
        assert(x <= u64::MAX);
        assert(vstd::wrapping::u64_specs::wrapping_add(pos, (a - r) as u64) == x);
        assert(x % (a as int) == 0) by {
            vstd::arithmetic::div_mod::lemma_fundamental_div_mod(pos as int, a as int);
            vstd::arithmetic::div_mod::lemma_mod_multiples_basic(pos as int / a as int + 1, a as int);
            assert(x == (pos as int / a as int + 1) * a) by (nonlinear_arith)
                requires
                    pos == a * (pos as int / a as int) + r,
                    x == pos + (a - r),
            ;
        }
    }
}

} // verus!

//! The strict GGUF reader: every metadata type of the GGUF specification
//! (type codes 0 to 12, arrays being 9), strings that must be valid UTF-8,
//! and tensor data at the first multiple of the alignment after the
//! descriptors.  Floats are kept as their IEEE-754 bit patterns.
use vstd::prelude::*;
use vstd::hash_map::StringHashMap;
use vstd::slice::SliceAdditionalExecFns;
use vstd::utf8::{decode_utf8, valid_utf8};
use crate::gguf::bytes::{
    avail, copy_range, has_bytes, le_u16, le_u32, le_u64, read_u16_le, read_u32_le, read_u64_le,
    GgufError, GGUF_MAGIC,
};
use crate::gguf::parser::{
    dims_product, dims_product_fits, lemma_p_dims_err, p_dims, p_u32, p_u64, product_of,
    read_dims,
};
use crate::text::{str_equal, utf8_strict};

verus! {

/// A metadata value; `Float32` and `Float64` hold bit patterns.
#[derive(Debug)]
pub enum MetadataValue {
    Uint8(u8),
    Int8(i8),
    Uint16(u16),
    Int16(i16),
    UInt32(u32),
    Int32(i32),
    Float32(u32),
    Bool(bool),
    String(String),
    Uint64(u64),
    Int64(i64),
    Float64(u64),
    Array(Vec<MetadataValue>),
}

/// The mathematical model of a [`MetadataValue`].
pub enum MetaModel {
    Uint8(u8),
    Int8(i8),
    Uint16(u16),
    Int16(i16),
    UInt32(u32),
    Int32(i32),
    Float32(u32),
    Bool(bool),
    String(Seq<char>),
    Uint64(u64),
    Int64(i64),
    Float64(u64),
    Array(Seq<MetaModel>),
}

impl View for MetadataValue {
    type V = MetaModel;

    open spec fn view(&self) -> MetaModel
        decreases self, 1nat,
    {
        match self {
            MetadataValue::Uint8(x) => MetaModel::Uint8(*x),
            MetadataValue::Int8(x) => MetaModel::Int8(*x),
            MetadataValue::Uint16(x) => MetaModel::Uint16(*x),
            MetadataValue::Int16(x) => MetaModel::Int16(*x),
            MetadataValue::UInt32(x) => MetaModel::UInt32(*x),
            MetadataValue::Int32(x) => MetaModel::Int32(*x),
            MetadataValue::Float32(x) => MetaModel::Float32(*x),
            MetadataValue::Bool(x) => MetaModel::Bool(*x),
            MetadataValue::String(s) => MetaModel::String(s@),
            MetadataValue::Uint64(x) => MetaModel::Uint64(*x),
            MetadataValue::Int64(x) => MetaModel::Int64(*x),
            MetadataValue::Float64(x) => MetaModel::Float64(*x),
            MetadataValue::Array(v) => MetaModel::Array(values_view(v@)),
        }
    }
}

/// The models of a sequence of values.
pub open spec fn values_view(s: Seq<MetadataValue>) -> Seq<MetaModel>
    decreases s, 0nat,
{
    if s.len() == 0 {
        Seq::empty()
    } else {
        seq![s[0].view()] + values_view(s.drop_first())
    }
}

proof fn lemma_values_view(s: Seq<MetadataValue>)
    ensures
        values_view(s).len() == s.len(),
        forall|i: int| 0 <= i < s.len() ==> #[trigger] values_view(s)[i] == s[i]@,
    decreases s.len(),
{
    if s.len() > 0 {
        lemma_values_view(s.drop_first());
        assert(values_view(s) == seq![s[0]@] + values_view(s.drop_first()));
        assert forall|i: int| 0 <= i < s.len() implies #[trigger] values_view(s)[i] == s[i]@ by {
            if i > 0 {
                assert(s.drop_first()[i - 1] == s[i]);
            }
        }
    }
}

proof fn lemma_values_view_push(s: Seq<MetadataValue>, x: MetadataValue)
    ensures
        values_view(s.push(x)) == values_view(s).push(x@),
{
    lemma_values_view(s);
    lemma_values_view(s.push(x));
    assert(values_view(s.push(x)) =~= values_view(s).push(x@)) by {
        assert forall|i: int| 0 <= i < s.len() + 1 implies values_view(s.push(x))[i] == values_view(
            s,
        ).push(x@)[i] by {
            assert(s.push(x)[i] == if i < s.len() {
                s[i]
            } else {
                x
            });
        }
    }
}

/// A tensor descriptor.
#[derive(Clone, Debug)]
pub struct TensorInfo {
    pub name: String,
    pub dimensions: Vec<u64>,
    pub ggml_type: u32,
    pub offset: u64,
}

/// The model of a tensor descriptor.
pub struct TensorModel {
    pub name: Seq<char>,
    pub dimensions: Seq<u64>,
    pub ggml_type: u32,
    pub offset: u64,
}

impl View for TensorInfo {
    type V = TensorModel;

    open spec fn view(&self) -> TensorModel {
        TensorModel {
            name: self.name@,
            dimensions: self.dimensions@,
            ggml_type: self.ggml_type,
            offset: self.offset,
        }
    }
}

/// A string: a `u64` length, then that many bytes, which must be UTF-8.
pub open spec fn p_string(b: Seq<u8>, p: int) -> Result<(Seq<char>, int), GgufError> {
    if avail(b, p, 8) && avail(b, p + 8, le_u64(b, p) as usize as int) {
        let n = le_u64(b, p) as usize as int;
        let bytes = b.subrange(p + 8, p + 8 + n);
        if valid_utf8(bytes) {
            Ok((decode_utf8(bytes), p + 8 + n))
        } else {
            Err(GgufError::InvalidUtf8)
        }
    } else {
        Err(GgufError::UnexpectedEof)
    }
}

/// A metadata value of type `ty` at `p`.
pub open spec fn p_value(b: Seq<u8>, p: int, ty: u32) -> Result<(MetaModel, int), GgufError>
    decreases b.len() - p, 0nat, 0nat,
{
    if ty == 0 || ty == 1 || ty == 7 {
        if avail(b, p, 1) {
            Ok(
                (
                    if ty == 0 {
                        MetaModel::Uint8(b[p])
                    } else if ty == 1 {
                        MetaModel::Int8(b[p] as i8)
                    } else {
                        MetaModel::Bool(b[p] != 0)
                    },
                    p + 1,
                ),
            )
        } else {
            Err(GgufError::UnexpectedEof)
        }
    } else if ty == 2 || ty == 3 {
        if avail(b, p, 2) {
            Ok(
                (
                    if ty == 2 {
                        MetaModel::Uint16(le_u16(b, p))
                    } else {
                        MetaModel::Int16(le_u16(b, p) as i16)
                    },
                    p + 2,
                ),
            )
        } else {
            Err(GgufError::UnexpectedEof)
        }
    } else if ty == 4 || ty == 5 || ty == 6 {
        if avail(b, p, 4) {
            let x = le_u32(b, p);
            Ok(
                (
                    if ty == 4 {
                        MetaModel::UInt32(x)
                    } else if ty == 5 {
                        MetaModel::Int32(x as i32)
                    } else {
                        MetaModel::Float32(x)
                    },
                    p + 4,
                ),
            )
        } else {
            Err(GgufError::UnexpectedEof)
        }
    } else if ty == 8 {
        match p_string(b, p) {
            Ok((s, q)) => Ok((MetaModel::String(s), q)),
            Err(e) => Err(e),
        }
    } else if ty == 10 || ty == 11 || ty == 12 {
        if avail(b, p, 8) {
            let x = le_u64(b, p);
            Ok(
                (
                    if ty == 10 {
                        MetaModel::Uint64(x)
                    } else if ty == 11 {
                        MetaModel::Int64(x as i64)
                    } else {
                        MetaModel::Float64(x)
                    },
                    p + 8,
                ),
            )
        } else {
            Err(GgufError::UnexpectedEof)
        }
    } else if ty == 9 {
        if avail(b, p, 12) {
            match p_array(b, p + 12, le_u32(b, p), le_u64(b, p + 4) as usize as nat) {
                Ok((vs, q)) => Ok((MetaModel::Array(vs), q)),
                Err(e) => Err(e),
            }
        } else {
            Err(GgufError::UnexpectedEof)
        }
    } else {
        Err(GgufError::UnknownValueType(ty))
    }
}

/// `n` values of type `ty` in a row, from `p` on.
pub open spec fn p_array(b: Seq<u8>, p: int, ty: u32, n: nat) -> Result<
    (Seq<MetaModel>, int),
    GgufError,
>
    decreases b.len() - p, 1nat, n,
{
    if n == 0 {
        Ok((Seq::empty(), p))
    } else {
        match p_value(b, p, ty) {
            Err(e) => Err(e),
            Ok((v, q)) => if p <= q <= b.len() {
                match p_array(b, q, ty, (n - 1) as nat) {
                    Ok((vs, r)) => Ok((seq![v] + vs, r)),
                    Err(e) => Err(e),
                }
            } else {
                Err(GgufError::UnexpectedEof)
            },
        }
    }
}

proof fn lemma_p_value_advances(b: Seq<u8>, p: int, ty: u32)
    requires
        0 <= p,
    ensures
        p_value(b, p, ty) matches Ok((v, q)) ==> p < q <= b.len(),
    decreases b.len() - p, 0nat, 0nat,
{
    if ty == 9 && avail(b, p, 12) {
        lemma_p_array_advances(b, p + 12, le_u32(b, p), le_u64(b, p + 4) as usize as nat);
    }
}

proof fn lemma_p_array_advances(b: Seq<u8>, p: int, ty: u32, n: nat)
    requires
        0 <= p <= b.len(),
    ensures
        p_array(b, p, ty, n) matches Ok((vs, q)) ==> p <= q <= b.len() && vs.len() == n,
    decreases b.len() - p, 1nat, n,
{
    if n > 0 {
        lemma_p_value_advances(b, p, ty);
        if let Ok((v, q)) = p_value(b, p, ty) {
            if p <= q <= b.len() {
                lemma_p_array_advances(b, q, ty, (n - 1) as nat);
            }
        }
    }
}

proof fn lemma_p_array_step(
    b: Seq<u8>,
    cur: int,
    ty: u32,
    rest: nat,
    acc: Seq<MetaModel>,
    v: MetaModel,
    q: int,
)
    requires
        rest > 0,
        p_value(b, cur, ty) == Ok::<(MetaModel, int), GgufError>((v, q)),
        cur <= q <= b.len(),
    ensures
        (match p_array(b, cur, ty, rest) {
            Ok((vs, r)) => Ok((acc + vs, r)),
            Err(e) => Err(e),
        }) == (match p_array(b, q, ty, (rest - 1) as nat) {
            Ok((vs, r)) => Ok((acc.push(v) + vs, r)),
            Err(e) => Err::<(Seq<MetaModel>, int), GgufError>(e),
        }),
{
    if let Ok((vs, r)) = p_array(b, q, ty, (rest - 1) as nat) {
        assert(acc + (seq![v] + vs) =~= acc.push(v) + vs);
    }
}

/// `n` key/value pairs from `p` on.
pub open spec fn p_kvs(b: Seq<u8>, p: int, n: nat) -> Result<
    (Seq<(Seq<char>, MetaModel)>, int),
    GgufError,
>
    decreases n,
{
    if n == 0 {
        Ok((Seq::empty(), p))
    } else {
        match p_kvs(b, p, (n - 1) as nat) {
            Err(e) => Err(e),
            Ok((kvs, q)) => match p_string(b, q) {
                Err(e) => Err(e),
                Ok((k, q1)) => match p_u32(b, q1) {
                    Err(e) => Err(e),
                    Ok((ty, q2)) => match p_value(b, q2, ty) {
                        Err(e) => Err(e),
                        Ok((v, q3)) => Ok((kvs.push((k, v)), q3)),
                    },
                },
            },
        }
    }
}

/// The map the pairs build, a later key replacing an earlier one.
pub open spec fn kv_map(kvs: Seq<(Seq<char>, MetaModel)>) -> Map<Seq<char>, MetaModel>
    decreases kvs.len(),
{
    if kvs.len() == 0 {
        Map::empty()
    } else {
        kv_map(kvs.drop_last()).insert(kvs.last().0, kvs.last().1)
    }
}

/// The alignment: the last `general.alignment` pair holding a `UInt32`, or 32.
pub open spec fn kv_alignment(kvs: Seq<(Seq<char>, MetaModel)>) -> u64
    decreases kvs.len(),
{
    if kvs.len() == 0 {
        32
    } else if kvs.last().0 == "general.alignment"@ && kvs.last().1 is UInt32 {
        kvs.last().1->UInt32_0 as u64
    } else {
        kv_alignment(kvs.drop_last())
    }
}

/// A tensor descriptor at `p`.
pub open spec fn p_tensor(b: Seq<u8>, p: int) -> Result<(TensorModel, int), GgufError> {
    match p_string(b, p) {
        Err(e) => Err(e),
        Ok((name, q1)) => match p_u32(b, q1) {
            Err(e) => Err(e),
            Ok((n_dims, q2)) => match p_dims(b, q2, n_dims as usize as nat) {
                Err(e) => Err(e),
                Ok((dims, q3)) => match p_u32(b, q3) {
                    Err(e) => Err(e),
                    Ok((ty, q4)) => match p_u64(b, q4) {
                        Err(e) => Err(e),
                        Ok((off, q5)) => Ok(
                            (TensorModel { name, dimensions: dims, ggml_type: ty, offset: off }, q5),
                        ),
                    },
                },
            },
        },
    }
}

/// `n` tensor descriptors from `p` on.
pub open spec fn p_tensors(b: Seq<u8>, p: int, n: nat) -> Result<(Seq<TensorModel>, int), GgufError>
    decreases n,
{
    if n == 0 {
        Ok((Seq::empty(), p))
    } else {
        match p_tensors(b, p, (n - 1) as nat) {
            Err(e) => Err(e),
            Ok((ts, q)) => match p_tensor(b, q) {
                Err(e) => Err(e),
                Ok((t, q1)) => Ok((ts.push(t), q1)),
            },
        }
    }
}

/// The model of a parsed file: header fields, pairs in file order,
/// descriptors, and where the descriptors end.
pub struct LayoutModel {
    pub version: u32,
    pub tensor_count: u64,
    pub kv_count: u64,
    pub kvs: Seq<(Seq<char>, MetaModel)>,
    pub tensors: Seq<TensorModel>,
    pub end: int,
}

/// The layout of a file's bytes, up to the end of the descriptors.
pub open spec fn p_layout(b: Seq<u8>) -> Result<LayoutModel, GgufError> {
    if !avail(b, 0, 4) {
        Err(GgufError::UnexpectedEof)
    } else if le_u32(b, 0) != GGUF_MAGIC {
        Err(GgufError::BadMagic(le_u32(b, 0)))
    } else if !avail(b, 4, 20) {
        Err(GgufError::UnexpectedEof)
    } else {
        match p_kvs(b, 24, le_u64(b, 16) as nat) {
            Err(e) => Err(e),
            Ok((kvs, q)) => match p_tensors(b, q, le_u64(b, 8) as nat) {
                Err(e) => Err(e),
                Ok((tensors, q1)) => Ok(
                    LayoutModel {
                        version: le_u32(b, 4),
                        tensor_count: le_u64(b, 8),
                        kv_count: le_u64(b, 16),
                        kvs,
                        tensors,
                        end: q1,
                    },
                ),
            },
        }
    }
}

/// The file's alignment is not zero (the reader divides by it).
pub open spec fn alignment_nonzero(b: Seq<u8>) -> bool {
    p_layout(b) matches Ok(l) ==> kv_alignment(l.kvs) != 0
}

/// The header of a GGUF file.
pub struct GgufHeader {
    pub magic: u32,
    pub version: u32,
    pub tensor_count: u64,
    pub kv_count: u64,
    pub metadata: StringHashMap<MetadataValue>,
    pub tensors: Vec<TensorInfo>,
    pub alignment: u64,
}

/// The models of the metadata's values.
pub open spec fn meta_view(m: Map<Seq<char>, MetadataValue>) -> Map<Seq<char>, MetaModel> {
    m.map_values(|v: MetadataValue| v@)
}

/// The models of the tensor descriptors.
pub open spec fn tensors_view(v: Seq<TensorInfo>) -> Seq<TensorModel> {
    v.map_values(|t: TensorInfo| t@)
}

/// A parsed GGUF file: its header and where its tensor data starts.  The
/// file's bytes stay with the caller.
pub struct GgufParser {
    pub header: GgufHeader,
    pub tensor_data_offset: u64,
}

/// The parser a file's bytes give: header fields, metadata, descriptors,
/// alignment, and the data offset (the end of the descriptors rounded up to
/// the alignment).
pub open spec fn parsed_as(b: Seq<u8>, parser: GgufParser) -> bool {
    match p_layout(b) {
        Ok(l) => {
            let a = kv_alignment(l.kvs);
            &&& parser.header.magic == GGUF_MAGIC
            &&& parser.header.version == l.version
            &&& parser.header.tensor_count == l.tensor_count
            &&& parser.header.kv_count == l.kv_count
            &&& meta_view(parser.header.metadata@) == kv_map(l.kvs)
            &&& tensors_view(parser.header.tensors@) == l.tensors
            &&& parser.header.alignment == a
            &&& parser.tensor_data_offset == (l.end + a - 1) / (a as int) * a
        },
        Err(_) => false,
    }
}

fn read_string(b: &[u8], p: usize) -> (r: Result<(String, usize), GgufError>)
    ensures
        match p_string(b@, p as int) {
            Ok((s, q)) => r matches Ok((t, q2)) && t@ == s && q2 == q,
            Err(e) => r == Err::<(String, usize), GgufError>(e),
        },
{
    let _blen = b.len();
    let len = read_u64_le(b, p)? as usize;
    if !has_bytes(b, p + 8, len) {
        return Err(GgufError::UnexpectedEof);
    }
    let buf = copy_range(b, p + 8, len);
    match utf8_strict(buf) {
        Some(s) => Ok((s, p + 8 + len)),
        None => Err(GgufError::InvalidUtf8),
    }
}

fn read_value(b: &[u8], p: usize, ty: u32) -> (r: Result<(MetadataValue, usize), GgufError>)
    ensures
        match p_value(b@, p as int, ty) {
            Ok((v, q)) => r matches Ok((w, q2)) && w@ == v && q2 == q,
            Err(e) => r == Err::<(MetadataValue, usize), GgufError>(e),
        },
    decreases b@.len() - p,
{
    let _blen = b.len();
    if ty == 0 || ty == 1 || ty == 7 {
        if !has_bytes(b, p, 1) {
            return Err(GgufError::UnexpectedEof);
        }
        let x = b[p];
        let v = if ty == 0 {
            MetadataValue::Uint8(x)
        } else if ty == 1 {
            MetadataValue::Int8(x as i8)
        } else {
            MetadataValue::Bool(x != 0)
        };
        Ok((v, p + 1))
    } else if ty == 2 || ty == 3 {
        let x = read_u16_le(b, p)?;
        let v = if ty == 2 {
            MetadataValue::Uint16(x)
        } else {
            MetadataValue::Int16(x as i16)
        };
        Ok((v, p + 2))
    } else if ty == 4 || ty == 5 || ty == 6 {
        let x = read_u32_le(b, p)?;
        let v = if ty == 4 {
            MetadataValue::UInt32(x)
        } else if ty == 5 {
            MetadataValue::Int32(x as i32)
        } else {
            MetadataValue::Float32(x)
        };
        Ok((v, p + 4))
    } else if ty == 8 {
        let (s, q) = read_string(b, p)?;
        Ok((MetadataValue::String(s), q))
    } else if ty == 10 || ty == 11 || ty == 12 {
        let x = read_u64_le(b, p)?;
        let v = if ty == 10 {
            MetadataValue::Uint64(x)
        } else if ty == 11 {
            MetadataValue::Int64(x as i64)
        } else {
            MetadataValue::Float64(x)
        };
        Ok((v, p + 8))
    } else if ty == 9 {
        let item_type = read_u32_le(b, p)?;
        let len = read_u64_le(b, p + 4)? as usize;
        let ghost n = len as nat;
        let ghost start = p + 12;
        let mut arr: Vec<MetadataValue> = Vec::new();
        let mut cur: usize = p + 12;
        let mut i: usize = 0;
        proof {
            lemma_values_view(arr@);
        }
        while i < len
            invariant
                ty == 9,
                avail(b@, p as int, 12),
                start == p + 12,
                start <= cur <= b@.len(),
                i <= len,
                n == len,
                item_type == le_u32(b@, p as int),
                n == le_u64(b@, p as int + 4) as usize as nat,
                p_array(b@, start, item_type, n) == match p_array(
                    b@,
                    cur as int,
                    item_type,
                    (n - i) as nat,
                ) {
                    Ok((vs, r)) => Ok((values_view(arr@) + vs, r)),
                    Err(e) => Err(e),
                },
            decreases len - i,
        {
            proof {
                lemma_p_value_advances(b@, cur as int, item_type);
            }
            let ghost rest = (n - i) as nat;
            let ghost acc = values_view(arr@);
            let (v, q) = match read_value(b, cur, item_type) {
                Ok(x) => x,
                Err(e) => {
                    assert(p_array(b@, cur as int, item_type, rest) == Err::<
                        (Seq<MetaModel>, int),
                        GgufError,
                    >(e));
                    assert(p_array(b@, start, item_type, n) == Err::<
                        (Seq<MetaModel>, int),
                        GgufError,
                    >(e));
                    assert(p_value(b@, p as int, ty) == Err::<(MetaModel, int), GgufError>(e));
                    return Err(e);
                },
            };
            proof {
                lemma_p_array_step(b@, cur as int, item_type, rest, acc, v@, q as int);
                lemma_values_view_push(arr@, v);
            }
            arr.push(v);
            cur = q;
            i += 1;
        }
        proof {
            assert((n - i) as nat == 0);
            assert(values_view(arr@) + Seq::<MetaModel>::empty() =~= values_view(arr@));
        }
        Ok((MetadataValue::Array(arr), cur))
    } else {
        Err(GgufError::UnknownValueType(ty))
    }
}

fn read_kv(b: &[u8], p: usize) -> (r: Result<(String, MetadataValue, usize), GgufError>)
    ensures
        match p_string(b@, p as int) {
            Err(e) => r == Err::<(String, MetadataValue, usize), GgufError>(e),
            Ok((k, q1)) => match p_u32(b@, q1) {
                Err(e) => r == Err::<(String, MetadataValue, usize), GgufError>(e),
                Ok((ty, q2)) => match p_value(b@, q2, ty) {
                    Err(e) => r == Err::<(String, MetadataValue, usize), GgufError>(e),
                    Ok((v, q3)) => r matches Ok((key, val, q)) && key@ == k && val@ == v && q
                        == q3,
                },
            },
        },
{
    let (key, q1) = read_string(b, p)?;
    let ty = read_u32_le(b, q1)?;
    let (val, q3) = read_value(b, q1 + 4, ty)?;
    Ok((key, val, q3))
}

fn read_tensor(b: &[u8], p: usize) -> (r: Result<(TensorInfo, usize), GgufError>)
    ensures
        match p_tensor(b@, p as int) {
            Ok((t, q)) => r matches Ok((v, q2)) && v@ == t && q2 == q,
            Err(e) => r == Err::<(TensorInfo, usize), GgufError>(e),
        },
{
    let (name, q1) = read_string(b, p)?;
    let n_dims = read_u32_le(b, q1)?;
    let (dimensions, q3) = read_dims(b, q1 + 4, n_dims)?;
    let ggml_type = read_u32_le(b, q3)?;
    let offset = read_u64_le(b, q3 + 4)?;
    Ok((TensorInfo { name, dimensions, ggml_type, offset }, q3 + 12))
}

proof fn lemma_p_kvs_err(b: Seq<u8>, p: int, j: nat, n: nat)
    requires
        j <= n,
        p_kvs(b, p, j) is Err,
    ensures
        p_kvs(b, p, n) == p_kvs(b, p, j),
    decreases n,
{
    if n > j {
        lemma_p_kvs_err(b, p, j, (n - 1) as nat);
    }
}

proof fn lemma_p_tensors_err(b: Seq<u8>, p: int, j: nat, n: nat)
    requires
        j <= n,
        p_tensors(b, p, j) is Err,
    ensures
        p_tensors(b, p, n) == p_tensors(b, p, j),
    decreases n,
{
    if n > j {
        lemma_p_tensors_err(b, p, j, (n - 1) as nat);
    }
}

/// Bytes of `n` elements of type `ty` (F32 or Q8_0).
pub open spec fn spec_tensor_byte_size(ty: u32, n: int) -> int {
    if ty == 0 {
        n * 4
    } else {
        ((n + 31) / 32) * 34
    }
}

proof fn lemma_p_dims_bound(b: Seq<u8>, p: int, n: nat)
    ensures
        p_dims(b, p, n) matches Ok((ds, q)) ==> q <= b.len() || (n == 0 && q == p),
    decreases n,
{
    if n > 0 {
        lemma_p_dims_bound(b, p, (n - 1) as nat);
    }
}

proof fn lemma_p_tensor_bound(b: Seq<u8>, p: int)
    ensures
        p_tensor(b, p) matches Ok((t, q)) ==> q <= b.len(),
{
    if let Ok((name, q1)) = p_string(b, p) {
        if let Ok((n_dims, q2)) = p_u32(b, q1) {
            lemma_p_dims_bound(b, q2, n_dims as usize as nat);
        }
    }
}

/// The alignment after the pair `(key, val)`.
fn next_alignment(cur: u64, key: &String, val: &MetadataValue) -> (r: u64)
    ensures
        r == if key@ == "general.alignment"@ && val@ is UInt32 {
            val@->UInt32_0 as u64
        } else {
            cur
        },
{
    if str_equal(key.as_str(), "general.alignment") {
        if let MetadataValue::UInt32(a) = val {
            return *a as u64;
        }
    }
    cur
}

/// `pos` rounded up to a multiple of `a`.
fn data_offset(pos: u64, a: u64) -> (r: u64)
    requires
        a > 0,
        pos + a - 1 <= u64::MAX,
    ensures
        r == (pos + a - 1) / (a as int) * a,
{
    let x = (pos + (a - 1)) / a;
    assert(x * a <= pos + a - 1) by (nonlinear_arith)
        requires
            a > 0,
            x == (pos + a - 1) / (a as int),
    ;
    x * a
}

impl GgufParser {
    /// Reads the header from the bytes of a GGUF file.
    #[verifier::rlimit(50)]
    pub fn open(b: &[u8]) -> (r: Result<GgufParser, GgufError>)
        requires
            alignment_nonzero(b@),
            b@.len() <= 0x7fff_ffff_ffff_ffff,
        ensures
            match p_layout(b@) {
                Ok(_) => r matches Ok(parser) && parsed_as(b@, parser),
                Err(e) => r matches Err(e2) && e2 == e,
            },
    {
        let _blen = b.len();
        let magic = read_u32_le(b, 0)?;
        if magic != GGUF_MAGIC {
            return Err(GgufError::BadMagic(magic));
        }
        if !has_bytes(b, 4, 20) {
            return Err(GgufError::UnexpectedEof);
        }
        let version = read_u32_le(b, 4)?;
        let tensor_count = read_u64_le(b, 8)?;
        let kv_count = read_u64_le(b, 16)?;

        let mut metadata: StringHashMap<MetadataValue> = StringHashMap::new();
        let mut alignment: u64 = 32;
        let ghost mut kvs: Seq<(Seq<char>, MetaModel)> = Seq::empty();
        let mut cur: usize = 24;
        let mut i: u64 = 0;
        assert(meta_view(metadata@) =~= kv_map(kvs));
        while i < kv_count
            invariant
                i <= kv_count,
                avail(b@, 0, 24),
                le_u32(b@, 0) == GGUF_MAGIC,
                version == le_u32(b@, 4),
                tensor_count == le_u64(b@, 8),
                kv_count == le_u64(b@, 16),
                p_kvs(b@, 24, i as nat) == Ok::<(Seq<(Seq<char>, MetaModel)>, int), GgufError>(
                    (kvs, cur as int),
                ),
                meta_view(metadata@) == kv_map(kvs),
                alignment == kv_alignment(kvs),
                alignment <= u32::MAX,
                cur <= b@.len(),
            decreases kv_count - i,
        {
            proof {
                if let Ok((k, q1)) = p_string(b@, cur as int) {
                    if let Ok((ty, q2)) = p_u32(b@, q1) {
                        lemma_p_value_advances(b@, q2, ty);
                    }
                }
            }
            match read_kv(b, cur) {
                Ok((key, val, q)) => {
                    let ghost old_kvs = kvs;
                    let ghost old_map = metadata@;
                    proof {
                        kvs = kvs.push((key@, val@));
                        assert(kvs.drop_last() =~= old_kvs);
                    }
                    alignment = next_alignment(alignment, &key, &val);
                    metadata.insert(key, val);
                    proof {
                        assert(meta_view(metadata@) =~= meta_view(old_map).insert(key@, val@));
                        assert(meta_view(metadata@) =~= kv_map(kvs));
                    }
                    cur = q;
                },
                Err(e) => {
                    proof {
                        lemma_p_kvs_err(b@, 24, (i + 1) as nat, kv_count as nat);
                    }
                    return Err(e);
                },
            }
            i += 1;
        }

        let mut tensors: Vec<TensorInfo> = Vec::new();
        let ghost tensors_start = cur as int;
        let mut j: u64 = 0;
        assert(tensors_view(tensors@) =~= Seq::<TensorModel>::empty());
        while j < tensor_count
            invariant
                j <= tensor_count,
                avail(b@, 0, 24),
                le_u32(b@, 0) == GGUF_MAGIC,
                version == le_u32(b@, 4),
                tensor_count == le_u64(b@, 8),
                kv_count == le_u64(b@, 16),
                p_kvs(b@, 24, kv_count as nat) == Ok::<
                    (Seq<(Seq<char>, MetaModel)>, int),
                    GgufError,
                >((kvs, tensors_start)),
                p_tensors(b@, tensors_start, j as nat) == Ok::<(Seq<TensorModel>, int), GgufError>(
                    (tensors_view(tensors@), cur as int),
                ),
                alignment <= u32::MAX,
                cur <= b@.len(),
            decreases tensor_count - j,
        {
            proof {
                lemma_p_tensor_bound(b@, cur as int);
            }
            match read_tensor(b, cur) {
                Ok((t, q)) => {
                    let ghost old_ts = tensors@;
                    let ghost tm = t@;
                    tensors.push(t);
                    assert(tensors_view(tensors@) =~= tensors_view(old_ts).push(tm));
                    cur = q;
                },
                Err(e) => {
                    proof {
                        lemma_p_tensors_err(b@, tensors_start, (j + 1) as nat, tensor_count as nat);
                    }
                    return Err(e);
                },
            }
            j += 1;
        }
        let ghost layout = LayoutModel {
            version,
            tensor_count,
            kv_count,
            kvs,
            tensors: tensors_view(tensors@),
            end: cur as int,
        };
        assert(p_layout(b@) == Ok::<LayoutModel, GgufError>(layout));
        assert(alignment != 0);
        let tensor_data_offset = data_offset(cur as u64, alignment);
        let header = GgufHeader {
            magic,
            version,
            tensor_count,
            kv_count,
            metadata,
            tensors,
            alignment,
        };
        Ok(GgufParser { header, tensor_data_offset })
    }

    /// Bytes tensor `idx` occupies: 4 per F32 element, 34 per Q8_0 block of 32.
    pub fn tensor_byte_size(&self, idx: usize) -> (size: usize)
        requires
            idx < self.header.tensors@.len(),
            self.header.tensors@[idx as int].ggml_type == 0
                || self.header.tensors@[idx as int].ggml_type == 8,
            dims_product_fits(self.header.tensors@[idx as int].dimensions@),
            spec_tensor_byte_size(
                self.header.tensors@[idx as int].ggml_type,
                dims_product(self.header.tensors@[idx as int].dimensions@),
            ) <= u64::MAX,
            dims_product(self.header.tensors@[idx as int].dimensions@) + 31 <= u64::MAX,
        ensures
            size == spec_tensor_byte_size(
                self.header.tensors@[idx as int].ggml_type,
                dims_product(self.header.tensors@[idx as int].dimensions@),
            ) as u64 as usize,
    {
        let t = &self.header.tensors[idx];
        let elements = product_of(&t.dimensions);
        if t.ggml_type == 0 {
            (elements * 4) as usize
        } else {
            let blocks = (elements + 31) / 32;
            (blocks * 34) as usize
        }
    }

    /// Fill `dest` with the bytes of tensor `idx`, read from the file's bytes
    /// at the data offset plus the tensor's offset.
    pub fn read_tensor_into(&self, file: &[u8], idx: usize, dest: &mut [u8]) -> (r: Result<
        (),
        GgufError,
    >)
        requires
            idx < self.header.tensors@.len(),
            self.tensor_data_offset + self.header.tensors@[idx as int].offset <= u64::MAX,
        ensures
            ({
                let start = self.tensor_data_offset + self.header.tensors@[idx as int].offset;
                if start + old(dest)@.len() > file@.len() {
                    r == Err::<(), GgufError>(GgufError::UnexpectedEof)
                } else {
                    r == Ok::<(), GgufError>(()) && final(dest)@ == file@.subrange(
                        start,
                        start + old(dest)@.len(),
                    )
                }
            }),
            final(dest)@.len() == old(dest)@.len(),
    {
        let offset = self.tensor_data_offset + self.header.tensors[idx].offset;
        let size = dest.len();
        let file_len = file.len();
        if offset > file_len as u64 || (file_len as u64) - offset < size as u64 {
            return Err(GgufError::UnexpectedEof);
        }
        let start = offset as usize;
        let mut i: usize = 0;
        while i < size
            invariant
                i <= size,
                size == dest@.len(),
                file_len == file@.len(),
                start + size <= file@.len(),
                forall|k: int| 0 <= k < i ==> #[trigger] dest@[k] == file@[start + k],
            decreases size - i,
        {
            dest.set(i, file[start + i]);
            i += 1;
        }
        assert(dest@ =~= file@.subrange(start as int, start + size));
        Ok(())
    }
}

/// A 32-bit scalar metadata value is read from the four bytes at `p`, the
/// least significant first: type 4 as the unsigned number they spell, type
/// 5 as that number in two's complement (less 2^32 when its top bit is
/// set), type 6 as the bit pattern of a float; the next item starts four
/// bytes on.
pub proof fn law_scalar_metadata_values(b: Seq<u8>, p: int)
    requires
        0 <= p,
        p + 4 <= b.len(),
    ensures
        ({
            let u = b[p] as int + 256 * b[p + 1] as int + 65536 * b[p + 2] as int + 16777216 * b[p
                + 3] as int;
            let s = if u >= 0x8000_0000 {
                u - 0x1_0000_0000
            } else {
                u
            };
            &&& p_value(b, p, 4) matches Ok((MetaModel::UInt32(x), q)) && x as int == u && q == p + 4
            &&& p_value(b, p, 5) matches Ok((MetaModel::Int32(t), q)) && t as int == s && q == p + 4
            &&& p_value(b, p, 6) matches Ok((MetaModel::Float32(f), q)) && f as int == u && q == p + 4
        }),
{
    let u = b[p] as int + 256 * b[p + 1] as int + 65536 * b[p + 2] as int + 16777216 * b[p + 3] as int;
    assert(0 <= u < 0x1_0000_0000);
    let x = le_u32(b, p);
    assert(x as int == u);
    assert((x as i32) as int == if x >= 0x8000_0000 {
        x as int - 0x1_0000_0000
    } else {
        x as int
    }) by (bit_vector);
}

} // verus!

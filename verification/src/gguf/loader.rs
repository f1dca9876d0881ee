//! Loading a model's weights out of a parsed GGUF file.
//!
//! The tensors are read in file order into one scratch buffer as large as
//! the largest tensor.  The embedding table and the normalisation vectors
//! are kept as the bytes the scratch buffer holds after their read (their
//! values are floating point); Q8_0 weights are converted into bitmask
//! tensors.
use vstd::prelude::*;
use crate::gguf::bytes::{copy_range, GgufError};
use crate::text::contains_sub;
use crate::gguf::parser::{
    dims_product, dims_product_fits, known_type, spec_tensor_byte_size, GgufParser, HeaderModel,
    TensorModel,
};
use crate::gguf::weight_loader::{
    bitmask_tensor_of, matrix_shape, padded_cols, plan_tensor, q8_blocks,
    q8_blocks_to_ternary_bitmasks, spec_matrix_shape, spec_plan_tensor, BitmaskTensor, TensorPlan,
};

verus! {

/// Bytes tensor `t` occupies.
pub open spec fn tensor_size(t: TensorModel) -> int {
    spec_tensor_byte_size(t.ggml_type, dims_product(t.dimensions) as u64 as usize)
}

/// The loader reads the data of tensors with this plan.
pub open spec fn reads_data(p: TensorPlan) -> bool {
    p == TensorPlan::Embedding || p == TensorPlan::Norm || p == TensorPlan::Ternary
}

/// A `rows x cols` bitmask conversion fits the machine's integers.
pub open spec fn ternary_fits(rows: int, cols: int) -> bool {
    &&& cols + 63 <= usize::MAX
    &&& rows * padded_cols(cols) <= usize::MAX
    &&& rows * cols <= usize::MAX
}

/// What loading needs of a tensor: a size the loader knows, a data offset
/// that does not overflow, Q8_0 weights whose size matches their matrix,
/// and an embedding matrix whose byte counts fit.
pub open spec fn tensor_loadable(t: TensorModel, data_start: u64) -> bool {
    let plan = spec_plan_tensor(t.name, t.ggml_type);
    &&& known_type(t.ggml_type)
    &&& dims_product_fits(t.dimensions)
    &&& tensor_size(t) <= usize::MAX
    &&& reads_data(plan) ==> data_start + t.data_offset <= u64::MAX
    &&& (plan == TensorPlan::Ternary ==> match spec_matrix_shape(t.dimensions) {
        Some((rows, cols)) => ternary_fits(rows as int, cols as int) && tensor_size(t) == q8_blocks(
            rows * cols,
        ) * 34,
        None => true,
    })
    &&& (plan == TensorPlan::Embedding ==> match spec_matrix_shape(t.dimensions) {
        Some((rows, cols)) => rows * cols * 4 <= usize::MAX && q8_blocks(rows * cols) * 34
            <= usize::MAX,
        None => true,
    })
}

/// Every tensor of the header can be loaded.
pub open spec fn header_loadable(h: HeaderModel) -> bool {
    forall|i: int| 0 <= i < h.tensors.len() ==> tensor_loadable(#[trigger] h.tensors[i], h.data_start)
}

/// The largest tensor size among `ts`, 0 for none.
pub open spec fn max_tensor_size(ts: Seq<TensorModel>) -> int
    decreases ts.len(),
{
    if ts.len() == 0 {
        0
    } else {
        let m = max_tensor_size(ts.drop_last());
        if tensor_size(ts.last()) > m {
            tensor_size(ts.last())
        } else {
            m
        }
    }
}

/// A Q8_0 weight to convert: its name, shape and data.
pub struct TernarySource {
    pub name: Seq<char>,
    pub rows: usize,
    pub cols_raw: usize,
    pub raw: Seq<u8>,
}

/// The model of an embedding table's source.
pub struct EmbeddingModel {
    pub rows: usize,
    pub cols_raw: usize,
    pub ggml_type: u32,
    pub bytes: Seq<u8>,
}

/// What loading has gathered so far, and the scratch buffer's contents.
pub struct LoadState {
    pub scratch: Seq<u8>,
    pub ternary: Seq<TernarySource>,
    pub norms: Seq<(Seq<char>, Seq<u8>)>,
    pub embeddings: Seq<EmbeddingModel>,
}

/// The first `n` bytes of `s`, or all of `s` when it is shorter.
pub open spec fn prefix(s: Seq<u8>, n: int) -> Seq<u8> {
    if n <= s.len() {
        s.subrange(0, n)
    } else {
        s
    }
}

/// The scratch buffer after reading tensor `t` into it, or `None` when the
/// file ends before the tensor's data does.
pub open spec fn read_into_scratch(
    file: Seq<u8>,
    data_start: u64,
    t: TensorModel,
    scratch: Seq<u8>,
) -> Option<Seq<u8>> {
    let size = tensor_size(t);
    let start = data_start + t.data_offset;
    if start + size > file.len() {
        None
    } else {
        Some(file.subrange(start, start + size) + scratch.subrange(size, scratch.len() as int))
    }
}

/// Loading tensor `t`: embedding tables of type Q8_0 or F32 and F32
/// normalisation vectors keep the scratch bytes they are read from, Q8_0
/// weights with a matrix shape are queued for conversion, the others are
/// read or skipped with nothing kept.
pub open spec fn load_tensor(file: Seq<u8>, data_start: u64, t: TensorModel, st: LoadState) -> Result<
    LoadState,
    GgufError,
> {
    let plan = spec_plan_tensor(t.name, t.ggml_type);
    if !reads_data(plan) {
        Ok(st)
    } else {
        match read_into_scratch(file, data_start, t, st.scratch) {
            None => Err(GgufError::UnexpectedEof),
            Some(sc) => {
                let st2 = LoadState { scratch: sc, ..st };
                let shape = spec_matrix_shape(t.dimensions);
                Ok(
                    if plan == TensorPlan::Embedding {
                        match shape {
                            Some((rows, cols)) => if t.ggml_type == 8 {
                                LoadState {
                                    embeddings: st2.embeddings.push(
                                        EmbeddingModel {
                                            rows,
                                            cols_raw: cols,
                                            ggml_type: 8,
                                            bytes: prefix(sc, q8_blocks(rows * cols) * 34),
                                        },
                                    ),
                                    ..st2
                                }
                            } else if t.ggml_type == 0 {
                                LoadState {
                                    embeddings: st2.embeddings.push(
                                        EmbeddingModel {
                                            rows,
                                            cols_raw: cols,
                                            ggml_type: 0,
                                            bytes: prefix(sc, rows * cols * 4),
                                        },
                                    ),
                                    ..st2
                                }
                            } else {
                                st2
                            },
                            None => st2,
                        }
                    } else if plan == TensorPlan::Norm {
                        if t.ggml_type == 0 {
                            LoadState {
                                norms: st2.norms.push(
                                    (t.name, sc.subrange(0, (tensor_size(t) / 4) * 4)),
                                ),
                                ..st2
                            }
                        } else {
                            st2
                        }
                    } else {
                        match shape {
                            Some((rows, cols)) => LoadState {
                                ternary: st2.ternary.push(
                                    TernarySource {
                                        name: t.name,
                                        rows,
                                        cols_raw: cols,
                                        raw: sc.subrange(0, tensor_size(t)),
                                    },
                                ),
                                ..st2
                            },
                            None => st2,
                        }
                    },
                )
            },
        }
    }
}

/// Loading the first `n` tensors from the state `st0`; the first failing
/// read ends it.
pub open spec fn load_upto(file: Seq<u8>, h: HeaderModel, st0: LoadState, n: int) -> Result<
    LoadState,
    GgufError,
>
    decreases n,
{
    if n <= 0 {
        Ok(st0)
    } else {
        match load_upto(file, h, st0, n - 1) {
            Err(e) => Err(e),
            Ok(st) => load_tensor(file, h.data_start, h.tensors[n - 1], st),
        }
    }
}

/// Loading every tensor, from a zeroed scratch buffer the size of the
/// largest tensor.
pub open spec fn spec_load(file: Seq<u8>, h: HeaderModel) -> Result<LoadState, GgufError> {
    load_upto(file, h, initial_state(h), h.tensors.len() as int)
}

/// The state loading starts from: a zeroed scratch buffer the size of the
/// largest tensor, nothing gathered.
pub open spec fn initial_state(h: HeaderModel) -> LoadState {
    LoadState {
        scratch: Seq::new(max_tensor_size(h.tensors) as nat, |i: int| 0u8),
        ternary: Seq::empty(),
        norms: Seq::empty(),
        embeddings: Seq::empty(),
    }
}

/// The bytes an embedding table is built from.
pub struct EmbeddingSource {
    pub rows: usize,
    pub cols_raw: usize,
    pub ggml_type: u32,
    pub bytes: Vec<u8>,
}

impl View for EmbeddingSource {
    type V = EmbeddingModel;

    open spec fn view(&self) -> EmbeddingModel {
        EmbeddingModel {
            rows: self.rows,
            cols_raw: self.cols_raw,
            ggml_type: self.ggml_type,
            bytes: self.bytes@,
        }
    }
}

/// The weights a model file yields, each kind in file order.
pub struct LoadedWeights {
    /// Converted Q8_0 weights, by name.
    pub ternary: Vec<(String, BitmaskTensor)>,
    /// F32 normalisation vectors, as their little-endian bytes, by name.
    pub norms: Vec<(String, Vec<u8>)>,
    /// The sources of the embedding table.
    pub embeddings: Vec<EmbeddingSource>,
}

/// The loaded weights are those the state describes.
pub open spec fn weights_match(w: LoadedWeights, st: LoadState) -> bool {
    &&& w.ternary@.len() == st.ternary.len()
    &&& forall|i: int|
        #![trigger w.ternary@[i]]
        0 <= i < st.ternary.len() ==> {
            let s = st.ternary[i];
            w.ternary@[i].0@ == s.name && bitmask_tensor_of(
                s.raw,
                s.rows as int,
                s.cols_raw as int,
                w.ternary@[i].1,
            )
        }
    &&& w.norms@.len() == st.norms.len()
    &&& forall|i: int|
        #![trigger w.norms@[i]]
        0 <= i < st.norms.len() ==> w.norms@[i].0@ == st.norms[i].0 && w.norms@[i].1@
            == st.norms[i].1
    &&& w.embeddings@.len() == st.embeddings.len()
    &&& forall|i: int|
        #![trigger w.embeddings@[i]]
        0 <= i < st.embeddings.len() ==> w.embeddings@[i]@ == st.embeddings[i]
}

/// The state loading has reached is the one `w` and `scratch` hold.
pub open spec fn state_of(w: LoadedWeights, scratch: Seq<u8>, st: LoadState) -> bool {
    weights_match(w, st) && scratch == st.scratch
}

/// `max_tensor_size` bounds every tensor's size.
proof fn lemma_max_tensor_size(ts: Seq<TensorModel>)
    ensures
        forall|i: int| 0 <= i < ts.len() ==> tensor_size(#[trigger] ts[i]) <= max_tensor_size(ts),
        max_tensor_size(ts) >= 0,
    decreases ts.len(),
{
    if ts.len() > 0 {
        lemma_max_tensor_size(ts.drop_last());
        assert forall|i: int| 0 <= i < ts.len() implies tensor_size(#[trigger] ts[i])
            <= max_tensor_size(ts) by {
            if i < ts.len() - 1 {
                assert(ts[i] == ts.drop_last()[i]);
            }
        }
    }
}

impl GgufParser {
    /// Whether every tensor can be loaded (see [`header_loadable`]).
    pub fn loadable(&self) -> (b: bool)
        ensures
            b == header_loadable(self.header.model()),
    {
        let n = self.header.tensors.len();
        let mut i: usize = 0;
        while i < n
            invariant
                n == self.header.tensors@.len(),
                i <= n,
                forall|k: int|
                    0 <= k < i ==> tensor_loadable(
                        #[trigger] self.header.model().tensors[k],
                        self.header.data_start,
                    ),
            decreases n - i,
        {
            if !tensor_loadable_exec(&self.header.tensors[i], self.header.data_start) {
                assert(!tensor_loadable(self.header.model().tensors[i as int], self.header.data_start));
                return false;
            }
            i += 1;
        }
        true
    }

    /// Load every tensor's weights out of `file`, the bytes the header was
    /// parsed from.  Fails when a tensor's data runs past the end of the
    /// file.
    pub fn load_weights(&self, file: &[u8]) -> (r: Result<LoadedWeights, GgufError>)
        requires
            header_loadable(self.header.model()),
        ensures
            match spec_load(file@, self.header.model()) {
                Err(e) => r == Err::<LoadedWeights, GgufError>(e),
                Ok(st) => r matches Ok(w) && weights_match(w, st),
            },
    {
        let ghost h = self.header.model();
        let n = self.header.tensors.len();
        proof {
            lemma_max_tensor_size(h.tensors);
        }
        // The scratch buffer: as large as the largest tensor.
        let mut max_bytes: usize = 0;
        let mut i: usize = 0;
        while i < n
            invariant
                n == self.header.tensors@.len(),
                h == self.header.model(),
                header_loadable(h),
                i <= n,
                max_bytes == max_tensor_size(h.tensors.take(i as int)),
            decreases n - i,
        {
            proof {
                assert(tensor_loadable(h.tensors[i as int], h.data_start));
                assert(h.tensors.take(i + 1).drop_last() =~= h.tensors.take(i as int));
            }
            let s = self.tensor_byte_size(i);
            if s > max_bytes {
                max_bytes = s;
            }
            i += 1;
        }
        assert(h.tensors.take(n as int) =~= h.tensors);
        let mut scratch: Vec<u8> = vec![0u8; max_bytes];
        let ghost st0 = initial_state(h);
        assert(scratch@ =~= st0.scratch);
        let mut w = LoadedWeights { ternary: Vec::new(), norms: Vec::new(), embeddings: Vec::new() };
        let mut idx: usize = 0;
        while idx < n
            invariant
                n == self.header.tensors@.len(),
                h == self.header.model(),
                header_loadable(h),
                idx <= n,
                st0 == initial_state(h),
                scratch@.len() == max_tensor_size(h.tensors),
                forall|k: int| 0 <= k < h.tensors.len() ==> tensor_size(#[trigger] h.tensors[k])
                    <= max_tensor_size(h.tensors),
                load_upto(file@, h, st0, idx as int) matches Ok(st) && state_of(w, scratch@, st),
            decreases n - idx,
        {
            let ghost st = load_upto(file@, h, st0, idx as int).unwrap();
            let ghost t = h.tensors[idx as int];
            proof {
                assert(tensor_loadable(t, h.data_start));
            }
            let info = &self.header.tensors[idx];
            let plan = plan_tensor(info);
            match plan {
                TensorPlan::SkipNonTernary | TensorPlan::SkipNotQ8 => {
                    idx += 1;
                    continue;
                },
                _ => {},
            }
            let size = match self.read_tensor_into(file, idx, scratch.as_mut_slice()) {
                Ok(s) => s,
                Err(e) => {
                    proof {
                        assert(info@ == t);
                        assert(reads_data(spec_plan_tensor(t.name, t.ggml_type)));
                        assert(e == GgufError::UnexpectedEof);
                        assert(read_into_scratch(file@, h.data_start, t, st.scratch) is None);
                        assert(load_upto(file@, h, st0, idx + 1) == Err::<LoadState, GgufError>(e));
                        lemma_load_err_stays(file@, h, st0, idx as int + 1, n as int, e);
                    }
                    return Err(e);
                },
            };
            let ghost sc = scratch@;
            proof {
                assert(read_into_scratch(file@, h.data_start, t, st.scratch) == Some(sc));
            }
            let shape = matrix_shape(&info.dimensions);
            match plan {
                TensorPlan::Embedding => {
                    match shape {
                        Some((rows, cols)) => {
                            if info.ggml_type == 8 {
                                let need = q8_blocks_exec(rows * cols) * 34;
                                let bytes = prefix_exec(&scratch, need);
                                w.embeddings.push(
                                    EmbeddingSource { rows, cols_raw: cols, ggml_type: 8, bytes },
                                );
                            } else if info.ggml_type == 0 {
                                let need = rows * cols * 4;
                                let bytes = prefix_exec(&scratch, need);
                                w.embeddings.push(
                                    EmbeddingSource { rows, cols_raw: cols, ggml_type: 0, bytes },
                                );
                            }
                        },
                        None => {},
                    }
                },
                TensorPlan::Norm => {
                    if info.ggml_type == 0 {
                        let bytes = copy_range(scratch.as_slice(), 0, (size / 4) * 4);
                        w.norms.push((info.name.clone(), bytes));
                    }
                },
                _ => {
                    match shape {
                        Some((rows, cols)) => {
                            let raw = copy_range(scratch.as_slice(), 0, size);
                            let tensor = q8_blocks_to_ternary_bitmasks(raw.as_slice(), rows, cols);
                            w.ternary.push((info.name.clone(), tensor));
                        },
                        None => {},
                    }
                },
            }
            proof {
                let next = load_upto(file@, h, st0, idx + 1);
                assert(next == load_tensor(file@, h.data_start, t, st));
                let st2 = next.unwrap();
                assert(state_of(w, scratch@, st2)) by {
                    assert(weights_match(w, st2));
                }
            }
            idx += 1;
        }
        Ok(w)
    }
}

/// Once a load fails it stays failed with the same error.
proof fn lemma_load_err_stays(
    file: Seq<u8>,
    h: HeaderModel,
    st0: LoadState,
    k: int,
    n: int,
    e: GgufError,
)
    requires
        0 < k <= n,
        load_upto(file, h, st0, k) == Err::<LoadState, GgufError>(e),
    ensures
        load_upto(file, h, st0, n) == Err::<LoadState, GgufError>(e),
    decreases n - k,
{
    if k < n {
        lemma_load_err_stays(file, h, st0, k + 1, n, e);
    }
}

/// Q8_0 blocks for `n` elements.
fn q8_blocks_exec(n: usize) -> (b: usize)
    ensures
        b == q8_blocks(n as int),
{
    n / 32 + if n % 32 != 0 {
        1
    } else {
        0
    }
}

/// The first `n` bytes of `s`, or all of `s` when it is shorter.
fn prefix_exec(s: &Vec<u8>, n: usize) -> (r: Vec<u8>)
    ensures
        r@ == prefix(s@, n as int),
{
    let m = if n <= s.len() {
        n
    } else {
        s.len()
    };
    copy_range(s.as_slice(), 0, m)
}

/// Whether the tensor `t` can be loaded (see [`tensor_loadable`]).
fn tensor_loadable_exec(t: &crate::gguf::parser::TensorInfo, data_start: u64) -> (b: bool)
    ensures
        b == tensor_loadable(t@, data_start),
{
    let ty = t.ggml_type;
    if !(ty == 0 || ty == 1 || ty == 2 || ty == 8 || ty == 14 || ty == 30) {
        return false;
    }
    let n = match checked_dims_product(&t.dimensions) {
        Some(n) => n,
        None => return false,
    };
    let n = n as usize;
    let size: u128 = if ty == 0 {
        n as u128 * 4
    } else if ty == 1 || ty == 30 {
        n as u128 * 2
    } else if ty == 2 {
        (n / 32) as u128 * 18
    } else if ty == 8 {
        (n / 32) as u128 * 34
    } else {
        (n / 256) as u128 * 144
    };
    if size > usize::MAX as u128 {
        return false;
    }
    let plan = plan_tensor(t);
    let reads = match plan {
        TensorPlan::Embedding | TensorPlan::Norm | TensorPlan::Ternary => true,
        _ => false,
    };
    if reads && data_start as u128 + t.data_offset as u128 > u64::MAX as u128 {
        return false;
    }
    let shape = matrix_shape(&t.dimensions);
    match (plan, shape) {
        (TensorPlan::Ternary, Some((rows, cols))) => {
            let r = rows as u128;
            let c = cols as u128;
            if c + 63 > usize::MAX as u128 {
                return false;
            }
            let padded = ((c + 63) / 64) * 64;
            assert(r * padded <= 0xffff_ffff_ffff_ffff * 0x1_0000_0000_0000_0000) by (nonlinear_arith)
                requires
                    r <= 0xffff_ffff_ffff_ffff,
                    padded <= 0x1_0000_0000_0000_0000,
            ;
            assert(r * c <= 0xffff_ffff_ffff_ffff * 0xffff_ffff_ffff_ffff) by (nonlinear_arith)
                requires
                    r <= 0xffff_ffff_ffff_ffff,
                    c <= 0xffff_ffff_ffff_ffff,
            ;
            if r * padded > usize::MAX as u128 || r * c > usize::MAX as u128 {
                return false;
            }
            let rc = r * c;
            let blocks = rc / 32 + if rc % 32 != 0 {
                1
            } else {
                0
            };
            blocks * 34 == size
        },
        (TensorPlan::Embedding, Some((rows, cols))) => {
            let r = rows as u128;
            let c = cols as u128;
            assert(r * c <= 0xffff_ffff_ffff_ffff * 0xffff_ffff_ffff_ffff) by (nonlinear_arith)
                requires
                    r <= 0xffff_ffff_ffff_ffff,
                    c <= 0xffff_ffff_ffff_ffff,
            ;
            let rc = r * c;
            if rc > usize::MAX as u128 {
                return false;
            }
            let blocks = rc / 32 + if rc % 32 != 0 {
                1
            } else {
                0
            };
            rc * 4 <= usize::MAX as u128 && blocks * 34 <= usize::MAX as u128
        },
        _ => true,
    }
}

/// The product of the dimensions, when every running product fits in a `u64`.
fn checked_dims_product(d: &Vec<u64>) -> (r: Option<u64>)
    ensures
        r matches Some(p) ==> dims_product_fits(d@) && p == dims_product(d@),
        r is None ==> !dims_product_fits(d@),
{
    let mut acc: u64 = 1;
    let mut i: usize = 0;
    assert(d@.take(0) =~= Seq::<u64>::empty());
    while i < d.len()
        invariant
            i <= d@.len(),
            acc == dims_product(d@.take(i as int)),
            forall|k: int| 0 <= k <= i ==> #[trigger] dims_product(d@.take(k)) <= u64::MAX,
        decreases d@.len() - i,
    {
        assert(d@.take(i + 1).drop_last() =~= d@.take(i as int));
        match acc.checked_mul(d[i]) {
            Some(p) => {
                acc = p;
            },
            None => {
                assert(dims_product(d@.take(i + 1)) > u64::MAX);
                return None;
            },
        }
        i += 1;
    }
    assert(d@.take(d@.len() as int) =~= d@);
    Some(acc)
}

/// Bytes of the embedding table of a `rows x cols` matrix: four per value
/// for F32 (type 0), 34 per block of 32 values for Q8_0.
pub open spec fn embedding_bytes(ggml_type: u32, rows: int, cols: int) -> int {
    if ggml_type == 0 {
        rows * cols * 4
    } else {
        q8_blocks(rows * cols) * 34
    }
}

/// Loading one tensor keeps the embedding tables and the normalisation
/// vectors found before it.
proof fn lemma_load_tensor_keeps_embeddings(file: Seq<u8>, ds: u64, t: TensorModel, st: LoadState)
    ensures
        load_tensor(file, ds, t, st) matches Ok(st2) ==> st2.embeddings.len() >= st.embeddings.len()
            && (forall|e: int| 0 <= e < st.embeddings.len() ==> #[trigger] st2.embeddings[e] == st.embeddings[e])
            && st2.norms.len() >= st.norms.len()
            && (forall|e: int| 0 <= e < st.norms.len() ==> #[trigger] st2.norms[e] == st.norms[e]),
{
}

/// A successful load of `n` tensors went through a successful load of the
/// first `m`, and keeps the embedding tables found there.
proof fn lemma_load_upto_keeps_embeddings(file: Seq<u8>, h: HeaderModel, st0: LoadState, m: int, n: int)
    requires
        0 <= m <= n,
        load_upto(file, h, st0, n) is Ok,
    ensures
        load_upto(file, h, st0, m) is Ok,
        load_upto(file, h, st0, n)->Ok_0.norms.len() >= load_upto(file, h, st0, m)->Ok_0.norms.len(),
        forall|e: int|
            0 <= e < load_upto(file, h, st0, m)->Ok_0.norms.len() ==> #[trigger] load_upto(
                file,
                h,
                st0,
                n,
            )->Ok_0.norms[e] == load_upto(file, h, st0, m)->Ok_0.norms[e],
        load_upto(file, h, st0, n)->Ok_0.embeddings.len() >= load_upto(file, h, st0, m)->Ok_0.embeddings.len(),
        forall|e: int|
            0 <= e < load_upto(file, h, st0, m)->Ok_0.embeddings.len() ==> #[trigger] load_upto(
                file,
                h,
                st0,
                n,
            )->Ok_0.embeddings[e] == load_upto(file, h, st0, m)->Ok_0.embeddings[e],
    decreases n,
{
    if m < n {
        assert(load_upto(file, h, st0, n - 1) is Ok);
        lemma_load_upto_keeps_embeddings(file, h, st0, m, n - 1);
        lemma_load_tensor_keeps_embeddings(
            file,
            h.data_start,
            h.tensors[n - 1],
            load_upto(file, h, st0, n - 1)->Ok_0,
        );
    }
}

/// Loading keeps what an embedding table's data holds: when loading
/// succeeds and tensor `k` is `token_embd.weight` of type F32 (0) or Q8_0
/// (8), with a matrix shape whose table fits in the tensor's data, the
/// loaded weights hold an embedding table of that shape and type whose
/// bytes are the table's bytes of the file, from the tensor's start on.
pub proof fn law_embedding_table_loaded(file: Seq<u8>, h: HeaderModel, k: int)
    requires
        0 <= k < h.tensors.len(),
        h.tensors[k].name == "token_embd.weight"@,
        h.tensors[k].ggml_type == 0 || h.tensors[k].ggml_type == 8,
        spec_matrix_shape(h.tensors[k].dimensions) is Some,
        embedding_bytes(
            h.tensors[k].ggml_type,
            spec_matrix_shape(h.tensors[k].dimensions)->Some_0.0 as int,
            spec_matrix_shape(h.tensors[k].dimensions)->Some_0.1 as int,
        ) <= tensor_size(h.tensors[k]),
        spec_load(file, h) is Ok,
    ensures
        ({
            let t = h.tensors[k];
            let rows = spec_matrix_shape(t.dimensions)->Some_0.0;
            let cols = spec_matrix_shape(t.dimensions)->Some_0.1;
            let start = h.data_start + t.data_offset;
            let n = embedding_bytes(t.ggml_type, rows as int, cols as int);
            let embs = spec_load(file, h)->Ok_0.embeddings;
            exists|e: int|
                0 <= e < embs.len() && #[trigger] embs[e] == (EmbeddingModel {
                    rows,
                    cols_raw: cols,
                    ggml_type: t.ggml_type,
                    bytes: file.subrange(start, start + n),
                })
        }),
{
    let st0 = initial_state(h);
    let len = h.tensors.len() as int;
    lemma_load_upto_keeps_embeddings(file, h, st0, k + 1, len);
    lemma_load_upto_keeps_embeddings(file, h, st0, k, k + 1);
    let t = h.tensors[k];
    let st = load_upto(file, h, st0, k)->Ok_0;
    let st2 = load_upto(file, h, st0, k + 1)->Ok_0;
    assert(load_upto(file, h, st0, k + 1) == load_tensor(file, h.data_start, t, st));
    let rows = spec_matrix_shape(t.dimensions)->Some_0.0;
    let cols = spec_matrix_shape(t.dimensions)->Some_0.1;
    let start = h.data_start + t.data_offset;
    let size = tensor_size(t);
    let n = embedding_bytes(t.ggml_type, rows as int, cols as int);
    assert(spec_plan_tensor(t.name, t.ggml_type) == TensorPlan::Embedding);
    let sc = read_into_scratch(file, h.data_start, t, st.scratch)->Some_0;
    let a = file.subrange(start, start + size);
    let bb = st.scratch.subrange(size, st.scratch.len() as int);
    assert(sc == a + bb);
    assert(a.len() == size);
    assert(0 <= n) by (nonlinear_arith)
        requires
            n == embedding_bytes(t.ggml_type, rows as int, cols as int),
            rows >= 0,
            cols >= 0,
    ;
    assert(prefix(sc, n) =~= file.subrange(start, start + n));
    let e = st.embeddings.len() as int;
    assert(st2.embeddings[e] == (EmbeddingModel {
        rows,
        cols_raw: cols,
        ggml_type: t.ggml_type,
        bytes: file.subrange(start, start + n),
    }));
    assert(spec_load(file, h) == load_upto(file, h, st0, len));
    let embs = spec_load(file, h)->Ok_0.embeddings;
    assert(e < st2.embeddings.len());
    assert(embs[e] == st2.embeddings[e]);
}

/// Loading keeps an F32 normalisation vector's data: when loading
/// succeeds and tensor `k` is an F32 (type 0) tensor whose name holds
/// `norm` (and is not the embedding table's), the loaded weights hold that
/// name with the tensor's bytes of the file.
pub proof fn law_norm_vector_loaded(file: Seq<u8>, h: HeaderModel, k: int)
    requires
        0 <= k < h.tensors.len(),
        h.tensors[k].name != "token_embd.weight"@,
        contains_sub(h.tensors[k].name, "norm"@),
        h.tensors[k].ggml_type == 0,
        spec_load(file, h) is Ok,
    ensures
        ({
            let t = h.tensors[k];
            let start = h.data_start + t.data_offset;
            let norms = spec_load(file, h)->Ok_0.norms;
            exists|e: int|
                0 <= e < norms.len() && #[trigger] norms[e] == (t.name, file.subrange(
                    start,
                    start + tensor_size(t),
                ))
        }),
{
    let st0 = initial_state(h);
    let len = h.tensors.len() as int;
    lemma_load_upto_keeps_embeddings(file, h, st0, k + 1, len);
    lemma_load_upto_keeps_embeddings(file, h, st0, k, k + 1);
    let t = h.tensors[k];
    let st = load_upto(file, h, st0, k)->Ok_0;
    let st2 = load_upto(file, h, st0, k + 1)->Ok_0;
    assert(load_upto(file, h, st0, k + 1) == load_tensor(file, h.data_start, t, st));
    let start = h.data_start + t.data_offset;
    let size = tensor_size(t);
    assert(spec_plan_tensor(t.name, t.ggml_type) == TensorPlan::Norm);
    let sc = read_into_scratch(file, h.data_start, t, st.scratch)->Some_0;
    let a = file.subrange(start, start + size);
    let bb = st.scratch.subrange(size, st.scratch.len() as int);
    assert(sc == a + bb);
    assert((size / 4) * 4 == size);
    assert(sc.subrange(0, (size / 4) * 4) =~= a);
    let e = st.norms.len() as int;
    assert(st2.norms[e] == (t.name, a));
    assert(spec_load(file, h) == load_upto(file, h, st0, len));
    let norms = spec_load(file, h)->Ok_0.norms;
    assert(norms[e] == st2.norms[e]);
}

} // verus!

//! The packed 2-bit ternary tensor: four weights per byte, two bits each
//! (`01` is +1, `10` is -1, `00` and `11` are 0), least significant first.
use vstd::prelude::*;

verus! {

/// Column count whose row dot products fit an `i32`.
pub const MAX_TERNARY_COLS: usize = 16777215;

/// A row-major ternary weight matrix with one scale.
pub struct TernaryTensor {
    pub rows: usize,
    pub cols: usize,
    /// Each byte holds 4 weights (2 bits each).
    pub packed_weights: Vec<u8>,
    /// The scale, as an IEEE-754 binary32 bit pattern.
    pub scale_bits: u32,
}

/// Weight `i` (0..4) of a packed byte.
pub open spec fn packed_weight(byte: u8, i: int) -> int {
    let shift: int = if i == 0 {
        1
    } else if i == 1 {
        4
    } else if i == 2 {
        16
    } else {
        64
    };
    let bits = (byte as int / shift) % 4;
    if bits == 1 {
        1
    } else if bits == 2 {
        -1
    } else {
        0
    }
}

/// The dot product of the first `n` weights of row `r` (rows `cols / 4`
/// bytes apart) with the activations.
pub open spec fn row_dot(packed: Seq<u8>, acts: Seq<i8>, r: int, cols: int, n: int) -> int
    decreases n,
{
    if n <= 0 {
        0
    } else {
        let k = n - 1;
        row_dot(packed, acts, r, cols, n - 1) + packed_weight(packed[r * (cols / 4) + k / 4], k % 4)
            * acts[k]
    }
}

proof fn lemma_row_dot_bound(packed: Seq<u8>, acts: Seq<i8>, r: int, cols: int, n: int)
    requires
        n >= 0,
    ensures
        -128 * n <= row_dot(packed, acts, r, cols, n) <= 128 * n,
    decreases n,
{
    if n > 0 {
        lemma_row_dot_bound(packed, acts, r, cols, n - 1);
        let k = n - 1;
        let w = packed_weight(packed[r * (cols / 4) + k / 4], k % 4);
        let a = acts[k] as int;
        assert(-128 <= w * a <= 128) by (nonlinear_arith)
            requires
                -1 <= w <= 1,
                -128 <= a <= 127,
        ;
    }
}

/// Weight `i` of a packed byte.
fn unpack(byte: u8, i: usize) -> (w: i32)
    requires
        i < 4,
    ensures
        w == packed_weight(byte, i as int),
{
    let shift: u8 = if i == 0 {
        1
    } else if i == 1 {
        4
    } else if i == 2 {
        16
    } else {
        64
    };
    let bits = (byte / shift) % 4;
    if bits == 1 {
        1
    } else if bits == 2 {
        -1
    } else {
        0
    }
}

impl TernaryTensor {
    /// A zero tensor of `rows x cols`, `(cols + 3) / 4` bytes per row.
    pub fn new(rows: usize, cols: usize, scale_bits: u32) -> (t: Self)
        requires
            cols + 3 <= usize::MAX,
            rows * ((cols + 3) / 4) <= usize::MAX,
        ensures
            t.rows == rows,
            t.cols == cols,
            t.scale_bits == scale_bits,
            t.packed_weights@ == Seq::new((rows * ((cols + 3) / 4)) as nat, |i: int| 0u8),
    {
        let packed_cols = (cols + 3) / 4;
        let packed_weights = vec![0u8; rows * packed_cols];
        assert(packed_weights@ =~= Seq::new((rows * packed_cols) as nat, |i: int| 0u8));
        TernaryTensor { rows, cols, packed_weights, scale_bits }
    }

    /// The integer dot product of each row with `activations`, over the
    /// `cols / 4` full bytes of the row (the output before scaling).
    pub fn row_dots(&self, activations: &[i8]) -> (out: Vec<i32>)
        requires
            self.cols == activations@.len(),
            self.cols <= MAX_TERNARY_COLS,
            self.rows * (self.cols / 4) <= self.packed_weights@.len(),
        ensures
            out@.len() == self.rows,
            forall|r: int|
                0 <= r < self.rows ==> #[trigger] out@[r] == row_dot(
                    self.packed_weights@,
                    activations@,
                    r,
                    self.cols as int,
                    (self.cols / 4) * 4,
                ),
    {
        let packed_cols = self.cols / 4;
        let _plen = self.packed_weights.len();
        let mut out: Vec<i32> = Vec::with_capacity(self.rows);
        let mut r: usize = 0;
        while r < self.rows
            invariant
                packed_cols == self.cols / 4,
                self.cols == activations@.len(),
                self.cols <= MAX_TERNARY_COLS,
                self.rows * packed_cols <= self.packed_weights@.len(),
                self.packed_weights@.len() <= usize::MAX,
                r <= self.rows,
                out@.len() == r,
                forall|q: int|
                    0 <= q < r ==> #[trigger] out@[q] == row_dot(
                        self.packed_weights@,
                        activations@,
                        q,
                        self.cols as int,
                        packed_cols * 4,
                    ),
            decreases self.rows - r,
        {
            assert(r * packed_cols + packed_cols <= self.rows * packed_cols) by (nonlinear_arith)
                requires
                    r < self.rows,
                    packed_cols >= 0,
            ;
            let row_offset = r * packed_cols;
            let mut sum: i32 = 0;
            let mut c: usize = 0;
            while c < packed_cols
                invariant
                    packed_cols == self.cols / 4,
                    self.cols == activations@.len(),
                    self.cols <= MAX_TERNARY_COLS,
                    row_offset == r * packed_cols,
                    row_offset + packed_cols <= self.packed_weights@.len(),
                    self.packed_weights@.len() <= usize::MAX,
                    c <= packed_cols,
                    sum == row_dot(
                        self.packed_weights@,
                        activations@,
                        r as int,
                        self.cols as int,
                        c * 4,
                    ),
                decreases packed_cols - c,
            {
                let packed_byte = self.packed_weights[row_offset + c];
                let mut i: usize = 0;
                while i < 4
                    invariant
                        packed_cols == self.cols / 4,
                        self.cols == activations@.len(),
                        self.cols <= MAX_TERNARY_COLS,
                        row_offset == r * packed_cols,
                        c < packed_cols,
                        row_offset + packed_cols <= self.packed_weights@.len(),
                        packed_byte == self.packed_weights@[row_offset + c],
                        i <= 4,
                        sum == row_dot(
                            self.packed_weights@,
                            activations@,
                            r as int,
                            self.cols as int,
                            c * 4 + i,
                        ),
                    decreases 4 - i,
                {
                    let act_idx = c * 4 + i;
                    proof {
                        lemma_row_dot_bound(
                            self.packed_weights@,
                            activations@,
                            r as int,
                            self.cols as int,
                            act_idx as int,
                        );
                        assert(act_idx / 4 == c && act_idx % 4 == i);
                    }
                    let w = unpack(packed_byte, i);
                    if act_idx < self.cols {
                        let a = activations[act_idx] as i32;
                        assert(-128 <= w * a <= 128) by (nonlinear_arith)
                            requires
                                -1 <= w <= 1,
                                -128 <= a <= 127,
                        ;
                        sum = sum + w * a;
                    }
                    i += 1;
                }
                c += 1;
            }
            out.push(sum);
            r += 1;
        }
        out
    }
}

} // verus!

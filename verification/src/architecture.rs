//! Weight buffers of a transformer layer.
use vstd::prelude::*;

verus! {

/// Alignment the weight buffers are laid out for (one OS page); a buffer
/// must fit, rounded up to it, in `isize`.
pub const WEIGHT_ALIGN: usize = 4096;

/// A zero-initialised buffer for a layer's ternary weights.
pub struct CacheLockedAllocator {
    buf: Vec<u8>,
}

impl View for CacheLockedAllocator {
    type V = Seq<u8>;

    closed spec fn view(&self) -> Seq<u8> {
        self.buf@
    }
}

impl CacheLockedAllocator {
    /// A buffer of `size_in_bytes` zero bytes.
    pub fn new(size_in_bytes: usize) -> (a: Self)
        requires
            size_in_bytes + WEIGHT_ALIGN - 1 <= isize::MAX,
        ensures
            a@ == Seq::new(size_in_bytes as nat, |i: int| 0u8),
    {
        let buf = vec![0u8; size_in_bytes];
        assert(buf@ =~= Seq::new(size_in_bytes as nat, |i: int| 0u8));
        CacheLockedAllocator { buf }
    }

    /// The buffer's length in bytes.
    pub fn len(&self) -> (n: usize)
        ensures
            n == self@.len(),
    {
        self.buf.len()
    }

    /// The buffer, for writing weights into (a mutable view of the
    /// allocation in place of a raw pointer to it).
    pub fn as_mut_ptr(&mut self) -> (s: &mut [u8])
        ensures
            s@ == old(self)@,
            final(self)@ == final(s)@,
    {
        self.buf.as_mut_slice()
    }
}

/// A transformer block whose ternary weights fit the CPU's last-level cache.
pub struct L3OptimizedTransformerLayer {
    pub attention_weights: CacheLockedAllocator,
    pub ffn_weights: CacheLockedAllocator,
    pub hidden_size: usize,
}

impl L3OptimizedTransformerLayer {
    /// The layer's forward pass, which does not compute yet: `hidden_size`
    /// zeros.
    pub fn forward_cpu(&self, hidden_states: &[i8]) -> (out: Vec<i32>)
        ensures
            out@ == Seq::new(self.hidden_size as nat, |i: int| 0i32),
    {
        let out = vec![0i32; self.hidden_size];
        assert(out@ =~= Seq::new(self.hidden_size as nat, |i: int| 0i32));
        out
    }
}

} // verus!

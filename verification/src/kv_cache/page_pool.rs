//! The physical page pool of the paged KV cache.
//!
//! Pages are handed out from a bitmap of free pages (bit `i` of word `w` set
//! means page `64 * w + i` is free).  The pool is modelled as a sequence of
//! booleans, one per page, `true` when the page is free.
use vstd::prelude::*;
use crate::bits::{bit_set, lemma_clear_bit, lemma_full_and_empty, lemma_low_mask, lemma_set_bit};

verus! {

broadcast use vstd::std_specs::bits::axiom_u64_trailing_zeros;

/// Tokens stored per KV page.
pub const PAGE_TOKENS: usize = 16;

/// Byte alignment the slab of the pool is laid out for (2 MiB, huge-page
/// eligible); a slab must fit, rounded up to it, in `isize`.
pub const SLAB_ALIGN: usize = 2097152;

/// A single physical KV page: `[K data for PAGE_TOKENS tokens][V data ...]`.
pub struct KVPage {
    /// Offset of the page's first byte in the pool's slab.
    pub data_offset: usize,
    /// How many token slots are currently filled (0..PAGE_TOKENS).
    pub used_slots: u8,
}

/// The physical page pool.  One instance per inference server.
pub struct PagePool {
    /// Flat slab: all pages laid out contiguously, zero-initialised.
    pub slab: Vec<i8>,
    pub slab_len: usize,
    /// Bytes per page.
    pub page_stride: usize,
    pub total_pages: usize,
    /// Bit `i` of word `w` set means page `64 * w + i` is free.
    pub free_bitmap: Vec<u64>,
}

/// Bytes of one page: K and V for `PAGE_TOKENS` tokens, padded to a
/// 64-byte cache line.
pub open spec fn spec_page_stride(num_heads: int, head_dim: int) -> int {
    ((2 * PAGE_TOKENS * num_heads * head_dim + 63) / 64) * 64
}

/// `p` is the lowest free page.
pub open spec fn is_first_free(flags: Seq<bool>, p: int) -> bool {
    &&& 0 <= p < flags.len()
    &&& flags[p]
    &&& forall|q: int| 0 <= q < p ==> !#[trigger] flags[q]
}

/// The lowest free page, if any page is free.
pub open spec fn first_free(flags: Seq<bool>) -> Option<int> {
    if exists|p: int| is_first_free(flags, p) {
        Some(choose|p: int| is_first_free(flags, p))
    } else {
        None
    }
}

/// The number of free pages.
pub open spec fn count_free(flags: Seq<bool>) -> nat
    decreases flags.len(),
{
    if flags.len() == 0 {
        0
    } else {
        count_free(flags.drop_last()) + if flags.last() { 1nat } else { 0nat }
    }
}

/// The first free page is the unique lowest one.
pub proof fn lemma_first_free_is(flags: Seq<bool>, p: int)
    requires
        is_first_free(flags, p),
    ensures
        first_free(flags) == Some(p),
{
    let c = choose|p: int| is_first_free(flags, p);
    assert(is_first_free(flags, c));
    if c < p {
        assert(!flags[c]);
    } else if p < c {
        assert(!flags[p]);
    }
}

/// When some page is free, a lowest free page exists.
pub proof fn lemma_first_free_exists(flags: Seq<bool>, i: int)
    requires
        0 <= i < flags.len(),
        flags[i],
    ensures
        first_free(flags) is Some,
    decreases i,
{
    if exists|q: int| 0 <= q < i && flags[q] {
        let q = choose|q: int| 0 <= q < i && flags[q];
        lemma_first_free_exists(flags, q);
    } else {
        assert(is_first_free(flags, i));
    }
}

/// No page free means no lowest free page.
pub proof fn lemma_first_free_none(flags: Seq<bool>)
    requires
        forall|q: int| 0 <= q < flags.len() ==> !#[trigger] flags[q],
    ensures
        first_free(flags) is None,
{
}

/// Allocating the lowest free page and freeing it again restores the pool.
pub proof fn law_alloc_then_free_restores(flags: Seq<bool>)
    ensures
        first_free(flags) matches Some(p) ==> flags.update(p, false).update(p, true) == flags,
{
    if let Some(p) = first_free(flags) {
        assert(is_first_free(flags, choose|p: int| is_first_free(flags, p)));
        assert(flags.update(p, false).update(p, true) =~= flags);
    }
}

/// A page handed out by the allocator was free before and is in use after.
pub proof fn law_alloc_takes_a_free_page(flags: Seq<bool>)
    ensures
        first_free(flags) matches Some(p) ==> {
            &&& 0 <= p < flags.len()
            &&& flags[p]
            &&& !flags.update(p, false)[p]
            &&& forall|q: int| 0 <= q < flags.len() && q != p ==> flags.update(p, false)[q] == flags[q]
        },
{
    if let Some(p) = first_free(flags) {
        assert(is_first_free(flags, choose|p: int| is_first_free(flags, p)));
    }
}

proof fn lemma_page_split(p: int)
    requires
        p >= 0,
    ensures
        p == (p / 64) * 64 + p % 64,
        0 <= p % 64 < 64,
{
}

proof fn lemma_page_join(w: int, j: int)
    requires
        w >= 0,
        0 <= j < 64,
    ensures
        (w * 64 + j) / 64 == w,
        (w * 64 + j) % 64 == j,
{
}

impl PagePool {
    /// The pool's internal consistency: one bit per page, no bit beyond the
    /// last page set, and a slab of `page_stride * total_pages` bytes.
    pub closed spec fn wf(&self) -> bool {
        &&& self.total_pages <= u32::MAX
        &&& self.free_bitmap@.len() == (self.total_pages + 63) / 64
        &&& forall|w: int, j: u64|
            0 <= w < self.free_bitmap@.len() && j < 64 && w * 64 + j >= self.total_pages
                ==> !#[trigger] bit_set(self.free_bitmap@[w], j)
        &&& self.slab@.len() == self.slab_len
        &&& self.slab_len == self.page_stride * self.total_pages
    }

    /// `true` at index `p` when page `p` is free.
    pub closed spec fn free_flags(&self) -> Seq<bool> {
        Seq::new(
            self.total_pages as nat,
            |p: int| bit_set(self.free_bitmap@[p / 64], (p % 64) as u64),
        )
    }

    /// The model has one flag per page.
    pub proof fn lemma_view_len(&self)
        ensures
            self@.len() == self.total_pages,
    {
    }

    /// A well-formed pool numbers its pages within `u32`.
    pub proof fn lemma_wf_pages(&self)
        requires
            self.wf(),
        ensures
            self.total_pages <= u32::MAX,
            self.slab@.len() == self.slab_len,
            self.slab_len == self.page_stride * self.total_pages,
    {
    }

    /// Allocate the pool with every page free.  Call once at server startup.
    pub fn new(num_heads: usize, head_dim: usize, total_pages: usize) -> (pool: Self)
        requires
            2 * PAGE_TOKENS * num_heads <= usize::MAX,
            2 * PAGE_TOKENS * num_heads * head_dim + 63 <= usize::MAX,
            spec_page_stride(num_heads as int, head_dim as int) * total_pages + SLAB_ALIGN - 1
                <= isize::MAX,
            total_pages <= u32::MAX,
        ensures
            pool.wf(),
            pool.page_stride == spec_page_stride(num_heads as int, head_dim as int),
            pool.total_pages == total_pages,
            pool.slab_len == pool.page_stride * total_pages,
            pool.slab@ == Seq::new(pool.slab_len as nat, |i: int| 0i8),
            pool@ == Seq::new(total_pages as nat, |p: int| true),
    {
        let raw = 2 * PAGE_TOKENS * num_heads * head_dim;
        let page_stride = (raw + 63) & !63usize;
        assert(((raw + 63) as usize) & !63usize == (((raw + 63) as usize) / 64) * 64) by (bit_vector);
        assert(page_stride == spec_page_stride(num_heads as int, head_dim as int));
        assert(page_stride * total_pages <= usize::MAX) by {
            assert(SLAB_ALIGN - 1 >= 0);
        }
        let slab_len = page_stride * total_pages;
        let slab: Vec<i8> = vec![0i8; slab_len];
        assert(slab@ =~= Seq::new(slab_len as nat, |i: int| 0i8));

        let bitmap_words = total_pages / 64 + if total_pages % 64 != 0 {
            1
        } else {
            0
        };
        let mut free_bitmap: Vec<u64> = Vec::with_capacity(bitmap_words);
        let mut i: usize = 0;
        while i < bitmap_words
            invariant
                bitmap_words == (total_pages + 63) / 64,
                total_pages <= u32::MAX,
                i <= bitmap_words,
                free_bitmap@.len() == i,
                forall|w: int, j: u64|
                    0 <= w < i && j < 64 ==> #[trigger] bit_set(free_bitmap@[w], j) == (w * 64
                        + j < total_pages),
            decreases bitmap_words - i,
        {
            let remaining: usize = if total_pages > i * 64 {
                total_pages - i * 64
            } else {
                0
            };
            let bits: u64 = if remaining >= 64 {
                u64::MAX
            } else {
                let r = remaining as u64;
                assert(1u64 << r >= 1u64) by (bit_vector)
                    requires
                        r < 64,
                ;
                (1u64 << r) - 1
            };
            proof {
                assert forall|j: u64| j < 64 implies bit_set(bits, j) == (i * 64 + j
                    < total_pages) by {
                    lemma_full_and_empty(j);
                    if remaining < 64 {
                        lemma_low_mask(remaining as u64, j);
                        assert(bits == ((1u64 << remaining as u64) - 1u64) as u64);
                    }
                }
            }
            free_bitmap.push(bits);
            i += 1;
        }
        let pool = PagePool { slab, slab_len, page_stride, total_pages, free_bitmap };
        assert forall|p: int| 0 <= p < total_pages implies #[trigger] pool.free_flags()[p] by {
            lemma_page_split(p);
            assert(bit_set(pool.free_bitmap@[p / 64], (p % 64) as u64) == ((p / 64) * 64 + (p % 64)
                < total_pages));
        }
        assert(pool.free_flags() =~= Seq::new(total_pages as nat, |p: int| true));
        pool
    }

    /// Allocate the lowest free physical page.  Returns its index, or `None`
    /// when the pool is exhausted.
    pub fn alloc_page(&mut self) -> (res: Option<u32>)
        requires
            old(self).wf(),
        ensures
            final(self).wf(),
            final(self).total_pages == old(self).total_pages,
            final(self).page_stride == old(self).page_stride,
            final(self).slab_len == old(self).slab_len,
            final(self).slab == old(self).slab,
            match first_free(old(self)@) {
                Some(p) => res == Some(p as u32) && final(self)@ == old(self)@.update(p, false),
                None => res is None && final(self)@ == old(self)@,
            },
            res matches Some(q) ==> (q as int) < old(self).total_pages && !final(self)@[q as int]
                && old(self)@[q as int],
    {
        proof {
            self.lemma_wf_pages();
            self.lemma_view_len();
        }
        let n = self.free_bitmap.len();
        let mut word_idx: usize = 0;
        while word_idx < n
            invariant
                self.wf(),
                *self == *old(self),
                n == self.free_bitmap@.len(),
                word_idx <= n,
                forall|w: int| 0 <= w < word_idx ==> #[trigger] self.free_bitmap@[w] == 0u64,
            decreases n - word_idx,
        {
            let word = self.free_bitmap[word_idx];
            if word != 0 {
                let bit_idx = word.trailing_zeros();
                let ghost tz = bit_idx as u64;
                let new_word = word & !(1u64 << bit_idx as u64);
                let ghost old_flags = self@;
                let ghost p = word_idx * 64 + bit_idx;
                proof {
                    assert(bit_set(word, tz));
                    assert forall|j: u64| j < 64 implies bit_set(new_word, j) == (bit_set(word, j)
                        && j != tz) by {
                        lemma_clear_bit(word, tz, j);
                    }
                    // the set bit lies below the pool's end
                    assert(p < self.total_pages);
                    assert forall|q: int| 0 <= q < p implies !#[trigger] old_flags[q] by {
                        lemma_page_split(q);
                        if q / 64 < word_idx {
                            assert(self.free_bitmap@[q / 64] == 0u64);
                            lemma_full_and_empty((q % 64) as u64);
                        } else {
                            assert(q / 64 == word_idx);
                            assert(((word >> ((q % 64) as u64)) & 1u64) == 0u64);
                        }
                    }
                    lemma_page_join(word_idx as int, tz as int);
                    assert(is_first_free(old_flags, p));
                    lemma_first_free_is(old_flags, p);
                }
                self.free_bitmap[word_idx] = new_word;
                let page_idx = word_idx * 64 + bit_idx as usize;
                proof {
                    assert forall|w: int, j: u64|
                        0 <= w < self.free_bitmap@.len() && j < 64 && w * 64 + j
                            >= self.total_pages implies !#[trigger] bit_set(self.free_bitmap@[w], j) by {
                        if w == word_idx {
                            assert(!bit_set(word, j));
                        } else {
                            assert(self.free_bitmap@[w] == old(self).free_bitmap@[w]);
                        }
                    }
                    assert forall|q: int| 0 <= q < self.total_pages implies #[trigger] self@[q]
                        == old_flags.update(p, false)[q] by {
                        lemma_page_split(q);
                        if q / 64 == word_idx {
                            assert(bit_set(new_word, (q % 64) as u64) == (bit_set(
                                word,
                                (q % 64) as u64,
                            ) && (q % 64) != tz));
                        } else {
                            assert(self.free_bitmap@[q / 64] == old(self).free_bitmap@[q / 64]);
                        }
                    }
                    assert(self@ =~= old_flags.update(p, false));
                }
                if page_idx < self.total_pages {
                    return Some(page_idx as u32);
                }
                return None;
            }
            word_idx += 1;
        }
        proof {
            assert forall|q: int| 0 <= q < self@.len() implies !#[trigger] self@[q] by {
                lemma_page_split(q);
                assert(self.free_bitmap@[q / 64] == 0u64);
                lemma_full_and_empty((q % 64) as u64);
            }
            lemma_first_free_none(self@);
        }
        None
    }

    /// Return a physical page to the pool.
    pub fn free_page(&mut self, page_idx: u32)
        requires
            old(self).wf(),
            page_idx < old(self).total_pages,
        ensures
            final(self).wf(),
            final(self).total_pages == old(self).total_pages,
            final(self).page_stride == old(self).page_stride,
            final(self).slab_len == old(self).slab_len,
            final(self).slab == old(self).slab,
            final(self)@ == old(self)@.update(page_idx as int, true),
    {
        let page_idx = page_idx as usize;
        let word_idx = page_idx / 64;
        let bit_idx = page_idx % 64;
        let word = self.free_bitmap[word_idx];
        let new_word = word | (1u64 << bit_idx as u64);
        self.free_bitmap[word_idx] = new_word;
        proof {
            let b = bit_idx as u64;
            assert forall|j: u64| j < 64 implies bit_set(new_word, j) == (bit_set(word, j) || j
                == b) by {
                lemma_set_bit(word, b, j);
            }
            assert forall|w: int, j: u64|
                0 <= w < self.free_bitmap@.len() && j < 64 && w * 64 + j
                    >= self.total_pages implies !#[trigger] bit_set(self.free_bitmap@[w], j) by {
                if w == word_idx {
                    assert(j != b);
                } else {
                    assert(self.free_bitmap@[w] == old(self).free_bitmap@[w]);
                }
            }
            assert forall|q: int| 0 <= q < self.total_pages implies #[trigger] self@[q]
                == old(self)@.update(page_idx as int, true)[q] by {
                lemma_page_split(q);
                if q / 64 == word_idx {
                    assert(bit_set(new_word, (q % 64) as u64) == (bit_set(word, (q % 64) as u64)
                        || (q % 64) == b));
                } else {
                    assert(self.free_bitmap@[q / 64] == old(self).free_bitmap@[q / 64]);
                }
            }
            assert(self@ =~= old(self)@.update(page_idx as int, true));
        }
    }
}

impl View for PagePool {
    type V = Seq<bool>;

    open spec fn view(&self) -> Seq<bool> {
        self.free_flags()
    }
}

/// Per-sequence state tracked by the KV cache.
pub struct SequenceState {
    pub seq_id: u32,
    /// Logical -> physical page map: `block_table[i]` is the page of logical block `i`.
    pub block_table: Vec<u32>,
    /// Total tokens generated so far in this sequence.
    pub num_tokens: u32,
    /// Ring cursor: for sliding-window attention, the oldest logical block.
    pub ring_head: u32,
}

impl SequenceState {
    /// The physical page holding logical token position `pos`.
    pub fn physical_page(&self, pos: usize) -> (page: u32)
        requires
            pos / PAGE_TOKENS < self.block_table@.len(),
        ensures
            page == self.block_table@[(pos / PAGE_TOKENS) as int],
    {
        let logical_block = pos / PAGE_TOKENS;
        self.block_table[logical_block]
    }

    /// The slot within its page of token position `pos`.
    pub fn slot_in_page(&self, pos: usize) -> (slot: usize)
        ensures
            slot == pos % PAGE_TOKENS,
            slot < PAGE_TOKENS,
            pos == (pos / PAGE_TOKENS) * PAGE_TOKENS + slot,
    {
        pos % PAGE_TOKENS
    }
}

} // verus!

//! Where the engine keeps a token's keys and values inside the pool's slab.
//!
//! A page holds `PAGE_TOKENS` token slots.  Its K section holds the K
//! vectors of every slot, and its V section, right after the K section
//! (`PAGE_TOKENS * heads * head_dim` bytes into the page), the V vectors;
//! within a section, slot `s` starts `s * heads * head_dim` bytes in and
//! head `h` another `h * head_dim` bytes in.  The engine writes and the
//! attention kernel reads at these offsets.
use vstd::prelude::*;
use crate::kv_cache::page_pool::PAGE_TOKENS;

verus! {

/// The offset of a head's vector: `page * stride + section + slot * heads
/// * head_dim + head * head_dim`.
pub open spec fn spec_kv_offset(
    page: int,
    stride: int,
    section: int,
    slot: int,
    heads: int,
    head_dim: int,
    head: int,
) -> int {
    page * stride + section + slot * heads * head_dim + head * head_dim
}

/// Each product in [`spec_kv_offset`] and the whole sum fit in `usize`.
pub open spec fn kv_offset_fits(
    page: int,
    stride: int,
    section: int,
    slot: int,
    heads: int,
    head_dim: int,
    head: int,
) -> bool {
    &&& page * stride <= usize::MAX
    &&& slot * heads <= usize::MAX
    &&& slot * heads * head_dim <= usize::MAX
    &&& head * head_dim <= usize::MAX
    &&& spec_kv_offset(page, stride, section, slot, heads, head_dim, head) <= usize::MAX
}

/// `a * b`, when it fits.
fn mul_fits(a: usize, b: usize) -> (r: Option<usize>)
    ensures
        match r {
            Some(p) => p == a * b,
            None => a * b > usize::MAX,
        },
{
    a.checked_mul(b)
}

/// The offset [`spec_kv_offset`], when every step of it fits in `usize`.
fn kv_offset(
    page: usize,
    stride: usize,
    section: usize,
    slot: usize,
    heads: usize,
    head_dim: usize,
    head: usize,
) -> (r: Option<usize>)
    ensures
        match r {
            Some(o) => kv_offset_fits(
                page as int,
                stride as int,
                section as int,
                slot as int,
                heads as int,
                head_dim as int,
                head as int,
            ) && o == spec_kv_offset(
                page as int,
                stride as int,
                section as int,
                slot as int,
                heads as int,
                head_dim as int,
                head as int,
            ),
            None => !kv_offset_fits(
                page as int,
                stride as int,
                section as int,
                slot as int,
                heads as int,
                head_dim as int,
                head as int,
            ),
        },
{
    let a = mul_fits(page, stride)?;
    let b = mul_fits(slot, heads)?;
    let c = mul_fits(b, head_dim)?;
    let d = mul_fits(head, head_dim)?;
    let s1 = a.checked_add(section)?;
    let s2 = s1.checked_add(c)?;
    let s3 = s2.checked_add(d)?;
    Some(s3)
}

/// Where a page's V section starts: right after the K vectors of its
/// `PAGE_TOKENS` slots.
pub open spec fn v_section(heads: int, head_dim: int) -> int {
    PAGE_TOKENS * heads * head_dim
}

/// The section a K (`is_v` false) or V vector lies in.
pub open spec fn kv_section(heads: int, head_dim: int, is_v: bool) -> int {
    if is_v {
        v_section(heads, head_dim)
    } else {
        0
    }
}

/// The offset of head `head`'s K or V vector for slot `slot` of page `page`.
pub open spec fn spec_slot_offset(
    page: int,
    stride: int,
    slot: int,
    heads: int,
    head_dim: int,
    head: int,
    is_v: bool,
) -> int {
    spec_kv_offset(page, stride, kv_section(heads, head_dim, is_v), slot, heads, head_dim, head)
}

/// Every step of [`spec_slot_offset`] fits in `usize`.
pub open spec fn slot_offset_fits(
    page: int,
    stride: int,
    slot: int,
    heads: int,
    head_dim: int,
    head: int,
    is_v: bool,
) -> bool {
    &&& (is_v ==> heads * head_dim <= usize::MAX && v_section(heads, head_dim) <= usize::MAX)
    &&& kv_offset_fits(page, stride, kv_section(heads, head_dim, is_v), slot, heads, head_dim, head)
}

/// The page and slot of token position `kv_pos` under a block table.
pub open spec fn pos_page(block_table: Seq<u32>, kv_pos: int) -> int {
    block_table[kv_pos / (PAGE_TOKENS as int)] as int
}

/// The slot of token position `kv_pos` within its page.
pub open spec fn pos_slot(kv_pos: int) -> int {
    kv_pos % (PAGE_TOKENS as int)
}

/// The section start `PAGE_TOKENS * heads * head_dim`, when it fits.
fn v_section_exec(heads: usize, head_dim: usize) -> (r: Option<usize>)
    ensures
        match r {
            Some(v) => heads * head_dim <= usize::MAX && v == v_section(heads as int, head_dim as int),
            None => heads * head_dim > usize::MAX || v_section(heads as int, head_dim as int)
                > usize::MAX,
        },
{
    proof {
        assert(PAGE_TOKENS * heads * head_dim == 16 * (heads * head_dim)) by (nonlinear_arith);
    }
    let hd = mul_fits(heads, head_dim)?;
    mul_fits(PAGE_TOKENS, hd)
}

/// The offset of a vector of slot `slot` of page `page`, when it fits.
fn slot_offset(
    page: usize,
    page_stride: usize,
    slot: usize,
    heads: usize,
    head_dim: usize,
    head: usize,
    is_v: bool,
) -> (r: Option<usize>)
    ensures
        match r {
            Some(o) => slot_offset_fits(
                page as int,
                page_stride as int,
                slot as int,
                heads as int,
                head_dim as int,
                head as int,
                is_v,
            ) && o == spec_slot_offset(
                page as int,
                page_stride as int,
                slot as int,
                heads as int,
                head_dim as int,
                head as int,
                is_v,
            ),
            None => !slot_offset_fits(
                page as int,
                page_stride as int,
                slot as int,
                heads as int,
                head_dim as int,
                head as int,
                is_v,
            ),
        },
{
    let section = if is_v {
        v_section_exec(heads, head_dim)?
    } else {
        0
    };
    kv_offset(page, page_stride, section, slot, heads, head_dim, head)
}

/// Where the engine writes the K vector (`is_v` false) or the V vector of
/// head `head` for the token in slot `slot` of page `page`: K vectors from
/// the start of the page, V vectors right after the K vectors of all
/// `PAGE_TOKENS` slots.  `None` when the arithmetic overflows.
pub fn kv_write_offset(
    page: u32,
    page_stride: usize,
    slot: usize,
    n_heads_kv: usize,
    head_dim: usize,
    head: usize,
    is_v: bool,
) -> (r: Option<usize>)
    ensures
        match r {
            Some(o) => slot_offset_fits(
                page as int,
                page_stride as int,
                slot as int,
                n_heads_kv as int,
                head_dim as int,
                head as int,
                is_v,
            ) && o == spec_slot_offset(
                page as int,
                page_stride as int,
                slot as int,
                n_heads_kv as int,
                head_dim as int,
                head as int,
                is_v,
            ),
            None => !slot_offset_fits(
                page as int,
                page_stride as int,
                slot as int,
                n_heads_kv as int,
                head_dim as int,
                head as int,
                is_v,
            ),
        },
{
    slot_offset(page as usize, page_stride, slot, n_heads_kv, head_dim, head, is_v)
}

/// Where the attention kernel reads the K vector (`is_v` false) or the V
/// vector of head `head` for token position `kv_pos` of a sequence with
/// block table `block_table`: in page `block_table[kv_pos / PAGE_TOKENS]`,
/// slot `kv_pos % PAGE_TOKENS`.  `None` when the arithmetic overflows.
pub fn kv_read_offset(
    block_table: &Vec<u32>,
    kv_pos: usize,
    page_stride: usize,
    num_heads: usize,
    head_dim: usize,
    head: usize,
    is_v: bool,
) -> (r: Option<usize>)
    requires
        kv_pos / PAGE_TOKENS < block_table@.len(),
    ensures
        ({
            let page = pos_page(block_table@, kv_pos as int);
            let slot = pos_slot(kv_pos as int);
            match r {
                Some(o) => slot_offset_fits(
                    page,
                    page_stride as int,
                    slot,
                    num_heads as int,
                    head_dim as int,
                    head as int,
                    is_v,
                ) && o == spec_slot_offset(
                    page,
                    page_stride as int,
                    slot,
                    num_heads as int,
                    head_dim as int,
                    head as int,
                    is_v,
                ),
                None => !slot_offset_fits(
                    page,
                    page_stride as int,
                    slot,
                    num_heads as int,
                    head_dim as int,
                    head as int,
                    is_v,
                ),
            }
        }),
{
    let page = block_table[kv_pos / PAGE_TOKENS];
    let slot = kv_pos % PAGE_TOKENS;
    slot_offset(page as usize, page_stride, slot, num_heads, head_dim, head, is_v)
}

/// What attention reads is what a step wrote: the vector the kernel reads
/// for position `kv_pos` is the one the engine wrote for the page and slot
/// the block table gives that position, with the same head count, head
/// size, head and section.
pub proof fn law_read_finds_write(
    block_table: Seq<u32>,
    kv_pos: int,
    page_stride: int,
    heads: int,
    head_dim: int,
    head: int,
    is_v: bool,
)
    requires
        0 <= kv_pos,
        kv_pos / (PAGE_TOKENS as int) < block_table.len(),
    ensures
        ({
            let page = pos_page(block_table, kv_pos);
            let slot = pos_slot(kv_pos);
            &&& page == block_table[kv_pos / (PAGE_TOKENS as int)]
            &&& 0 <= slot < PAGE_TOKENS
            &&& kv_pos == (kv_pos / (PAGE_TOKENS as int)) * PAGE_TOKENS + slot
            &&& spec_slot_offset(page, page_stride, slot, heads, head_dim, head, is_v)
                == spec_slot_offset(
                block_table[kv_pos / (PAGE_TOKENS as int)] as int,
                page_stride,
                kv_pos % (PAGE_TOKENS as int),
                heads,
                head_dim,
                head,
                is_v,
            )
        }),
{
}

/// Within a page whose stride holds both sections, the vectors of distinct
/// (section, slot, head) never overlap: each head's `head_dim` bytes lie in
/// their own stretch of the page.
pub proof fn law_slots_disjoint(
    stride: int,
    heads: int,
    head_dim: int,
    slot1: int,
    head1: int,
    v1: bool,
    slot2: int,
    head2: int,
    v2: bool,
)
    requires
        heads > 0,
        head_dim > 0,
        2 * PAGE_TOKENS * heads * head_dim <= stride,
        0 <= slot1 < PAGE_TOKENS,
        0 <= slot2 < PAGE_TOKENS,
        0 <= head1 < heads,
        0 <= head2 < heads,
        (slot1, head1, v1) != (slot2, head2, v2),
    ensures
        ({
            let o1 = spec_slot_offset(0, stride, slot1, heads, head_dim, head1, v1);
            let o2 = spec_slot_offset(0, stride, slot2, heads, head_dim, head2, v2);
            &&& 0 <= o1
            &&& o1 + head_dim <= stride
            &&& (o1 + head_dim <= o2 || o2 + head_dim <= o1)
        }),
{
    let hd = heads * head_dim;
    let i1 = (if v1 {
        PAGE_TOKENS as int
    } else {
        0
    }) * heads + slot1 * heads + head1;
    let i2 = (if v2 {
        PAGE_TOKENS as int
    } else {
        0
    }) * heads + slot2 * heads + head2;
    assert(spec_slot_offset(0, stride, slot1, heads, head_dim, head1, v1) == i1 * head_dim)
        by (nonlinear_arith)
        requires
            i1 == (if v1 {
                PAGE_TOKENS as int
            } else {
                0
            }) * heads + slot1 * heads + head1,
    {
    }
    assert(spec_slot_offset(0, stride, slot2, heads, head_dim, head2, v2) == i2 * head_dim)
        by (nonlinear_arith)
        requires
            i2 == (if v2 {
                PAGE_TOKENS as int
            } else {
                0
            }) * heads + slot2 * heads + head2,
    {
    }
    assert(i1 != i2) by (nonlinear_arith)
        requires
            heads > 0,
            0 <= slot1 < 16,
            0 <= slot2 < 16,
            0 <= head1 < heads,
            0 <= head2 < heads,
            (slot1, head1, v1) != (slot2, head2, v2),
            i1 == (if v1 {
                16int
            } else {
                0
            }) * heads + slot1 * heads + head1,
            i2 == (if v2 {
                16int
            } else {
                0
            }) * heads + slot2 * heads + head2,
    ;
    assert(0 <= i1 < 2 * PAGE_TOKENS * heads) by (nonlinear_arith)
        requires
            heads > 0,
            0 <= slot1 < 16,
            0 <= head1 < heads,
            i1 == (if v1 {
                16int
            } else {
                0
            }) * heads + slot1 * heads + head1,
    ;
    assert(i1 * head_dim + head_dim <= stride) by (nonlinear_arith)
        requires
            head_dim > 0,
            i1 + 1 <= 2 * 16 * heads,
            2 * 16 * heads * head_dim <= stride,
    ;
    assert(i1 * head_dim + head_dim <= i2 * head_dim || i2 * head_dim + head_dim <= i1 * head_dim)
        by (nonlinear_arith)
        requires
            head_dim > 0,
            i1 != i2,
    ;
    assert(0 <= i1 * head_dim) by (nonlinear_arith)
        requires
            head_dim > 0,
            i1 >= 0,
    ;
}

/// The embedding row of the token a sequence is at: its token at position
/// `num_tokens`, or its last token once the position has run past the
/// prompt.  `Some(start)` when the row `start .. start + n_embd` lies in a
/// table of `table_len` values; `None` when it does not (the engine then
/// uses a zero vector).
pub fn embed_row_start(prompt: &Vec<u32>, num_tokens: u32, n_embd: usize, table_len: usize) -> (r:
    Option<usize>)
    requires
        prompt@.len() > 0,
    ensures
        ({
            let idx = if (num_tokens as int) < prompt@.len() - 1 {
                num_tokens as int
            } else {
                prompt@.len() - 1
            };
            let start = prompt@[idx] * n_embd;
            match r {
                Some(s) => s == start && start + n_embd <= table_len,
                None => start + n_embd > table_len,
            }
        }),
{
    let last = prompt.len() - 1;
    let idx = if (num_tokens as usize) < last {
        num_tokens as usize
    } else {
        last
    };
    let token = prompt[idx] as usize;
    match token.checked_mul(n_embd) {
        Some(start) => {
            if start <= table_len && table_len - start >= n_embd {
                Some(start)
            } else {
                None
            }
        },
        None => {
            proof {
                assert(token * n_embd > usize::MAX);
                assert(table_len <= usize::MAX);
            }
            None
        },
    }
}

} // verus!

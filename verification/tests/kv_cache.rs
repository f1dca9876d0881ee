use aegis::kv_cache::layout::{embed_row_start, kv_read_offset, kv_write_offset};
use aegis::kv_cache::page_pool::{PagePool, SequenceState, PAGE_TOKENS};

fn free_pages(pool: &PagePool) -> Vec<u32> {
    let mut free = Vec::new();
    for p in 0..pool.total_pages {
        let w = pool.free_bitmap[p / 64];
        if (w >> (p % 64)) & 1 == 1 {
            free.push(p as u32);
        }
    }
    free
}

#[test]
fn new_pool_has_every_page_free() {
    let pool = PagePool::new(4, 8, 10);
    // 2 * 16 * 4 * 8 = 1024 bytes per page, already a multiple of 64.
    assert_eq!(pool.page_stride, 1024);
    assert_eq!(pool.total_pages, 10);
    assert_eq!(pool.slab_len, 10240);
    assert_eq!(pool.slab.len(), 10240);
    assert!(pool.slab.iter().all(|&b| b == 0));
    assert_eq!(free_pages(&pool), (0..10).collect::<Vec<u32>>());
}

#[test]
fn page_stride_rounds_up_to_a_cache_line() {
    // 2 * 16 * 1 * 3 = 96 bytes, rounded up to 128.
    let pool = PagePool::new(1, 3, 2);
    assert_eq!(pool.page_stride, 128);
    assert_eq!(pool.slab_len, 256);
}

#[test]
fn alloc_hands_out_the_lowest_free_page() {
    let mut pool = PagePool::new(1, 2, 5);
    assert_eq!(pool.alloc_page(), Some(0));
    assert_eq!(pool.alloc_page(), Some(1));
    assert_eq!(pool.alloc_page(), Some(2));
    pool.free_page(1);
    assert_eq!(pool.alloc_page(), Some(1));
    assert_eq!(pool.alloc_page(), Some(3));
    assert_eq!(free_pages(&pool), vec![4]);
}

#[test]
fn alloc_fails_when_the_pool_is_exhausted() {
    let mut pool = PagePool::new(1, 2, 3);
    assert_eq!(pool.alloc_page(), Some(0));
    assert_eq!(pool.alloc_page(), Some(1));
    assert_eq!(pool.alloc_page(), Some(2));
    assert_eq!(pool.alloc_page(), None);
    assert!(free_pages(&pool).is_empty());
}

#[test]
fn alloc_then_free_restores_the_pool() {
    let mut pool = PagePool::new(2, 2, 70);
    pool.alloc_page();
    pool.alloc_page();
    let before = free_pages(&pool);
    let bitmap_before = pool.free_bitmap.clone();
    let p = pool.alloc_page().unwrap();
    assert_eq!(p, 2);
    pool.free_page(p);
    assert_eq!(free_pages(&pool), before);
    assert_eq!(pool.free_bitmap, bitmap_before);
}

#[test]
fn pages_beyond_the_first_bitmap_word() {
    let mut pool = PagePool::new(1, 1, 130);
    for expect in 0..130u32 {
        assert_eq!(pool.alloc_page(), Some(expect));
    }
    assert_eq!(pool.alloc_page(), None);
    pool.free_page(100);
    pool.free_page(65);
    assert_eq!(pool.alloc_page(), Some(65));
    assert_eq!(pool.alloc_page(), Some(100));
}

#[test]
fn sequence_state_maps_positions_to_pages_and_slots() {
    let seq = SequenceState { seq_id: 7, block_table: vec![9, 4, 11], num_tokens: 40, ring_head: 0 };
    assert_eq!(seq.physical_page(0), 9);
    assert_eq!(seq.physical_page(15), 9);
    assert_eq!(seq.physical_page(16), 4);
    assert_eq!(seq.physical_page(47), 11);
    assert_eq!(seq.slot_in_page(0), 0);
    assert_eq!(seq.slot_in_page(17), 1);
    assert_eq!(seq.slot_in_page(47), 15);
    assert_eq!(PAGE_TOKENS, 16);
}

#[test]
fn kv_write_offsets_follow_the_page_layout() {
    // page 3, stride 1024, slot 2, 4 kv heads of 8, head 1.
    assert_eq!(kv_write_offset(3, 1024, 2, 4, 8, 1, false), Some(3 * 1024 + 2 * 32 + 8));
    // V vectors start right after the K vectors of the page's 16 slots.
    assert_eq!(kv_write_offset(3, 1024, 2, 4, 8, 1, true), Some(3 * 1024 + 16 * 32 + 2 * 32 + 8));
    assert_eq!(kv_write_offset(0, 64, 0, 1, 1, 0, false), Some(0));
    // With a padded stride (3 heads of 3: 288 bytes of K and V, stride 320)
    // the V section still starts at 144, not at half the stride.
    assert_eq!(kv_write_offset(0, 320, 0, 3, 3, 0, true), Some(144));
}

#[test]
fn kv_write_offset_overflow_is_none() {
    assert_eq!(kv_write_offset(u32::MAX, usize::MAX, 0, 1, 1, 0, false), None);
    assert_eq!(kv_write_offset(0, 64, usize::MAX, 2, 1, 0, false), None);
}

#[test]
fn kv_read_offsets_use_the_block_table() {
    let table = vec![5u32, 2];
    // Position 18 is slot 2 of logical block 1, which is page 2.
    assert_eq!(kv_read_offset(&table, 18, 1024, 4, 8, 3, false), Some(2 * 1024 + 2 * 32 + 3 * 8));
    // The kernel reads V from PAGE_TOKENS * heads * head_dim bytes in.
    assert_eq!(
        kv_read_offset(&table, 18, 1024, 4, 8, 3, true),
        Some(2 * 1024 + 16 * 32 + 2 * 32 + 3 * 8)
    );
    // The offset is computed even when the V section lies past the stride.
    assert_eq!(kv_read_offset(&table, 0, 64, 3, 2, 0, true), Some(5 * 64 + 96));
    assert_eq!(kv_read_offset(&table, 0, usize::MAX, 4, 8, 0, false), None);
}

#[test]
fn reads_find_what_writes_wrote() {
    let table = vec![7u32, 4, 9];
    for pos in 0..48usize {
        for head in 0..3usize {
            for is_v in [false, true] {
                let page = table[pos / 16];
                let w = kv_write_offset(page, 320, pos % 16, 3, 3, head, is_v);
                let r = kv_read_offset(&table, pos, 320, 3, 3, head, is_v);
                assert_eq!(w, r);
            }
        }
    }
}

#[test]
fn embedding_row_of_the_current_token() {
    let prompt = vec![3u32, 5, 7];
    // Position 1 is token 5; rows of 4 values.
    assert_eq!(embed_row_start(&prompt, 1, 4, 100), Some(20));
    // Past the prompt, the last token is used.
    assert_eq!(embed_row_start(&prompt, 10, 4, 100), Some(28));
    // A row that runs past the table gives none.
    assert_eq!(embed_row_start(&prompt, 2, 4, 31), None);
    assert_eq!(embed_row_start(&prompt, 2, 4, 32), Some(28));
}

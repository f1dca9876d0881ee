use aegis::engine::apply_step_outputs;
use aegis::kv_cache::page_pool::PagePool;
use aegis::scheduler::batching::{Scheduler, SequenceRequest, SequenceStatus};

fn free_count(pool: &PagePool) -> usize {
    (0..pool.total_pages)
        .filter(|p| (pool.free_bitmap[p / 64] >> (p % 64)) & 1 == 1)
        .count()
}

fn request(seq_id: u32, n: u32, max_new: u32) -> SequenceRequest {
    SequenceRequest { seq_id, prompt_tokens: (0..n).collect(), max_new_tokens: max_new }
}

#[test]
fn new_scheduler_is_empty_with_batch_of_sixteen() {
    let s = Scheduler::new(PagePool::new(1, 2, 4));
    assert!(s.active_seqs.is_empty());
    assert!(s.waiting_seqs.is_empty());
    assert_eq!(s.max_batch_size, 16);
}

#[test]
fn add_request_queues_a_waiting_sequence() {
    let mut s = Scheduler::new(PagePool::new(1, 2, 4));
    s.add_request(request(5, 20, 3));
    assert_eq!(s.waiting_seqs.len(), 1);
    let w = &s.waiting_seqs[0];
    assert_eq!(w.seq_id, 5);
    assert_eq!(w.num_tokens, 20);
    assert_eq!(w.prompt_tokens.len(), 20);
    assert_eq!(w.max_new_tokens, 3);
    assert_eq!(w.status, SequenceStatus::Waiting);
    assert!(w.physical_pages.is_empty());
    assert_eq!(w.generated_tokens, 0);
}

#[test]
fn promote_maps_prompt_pages_plus_one() {
    let mut s = Scheduler::new(PagePool::new(1, 2, 10));
    s.add_request(request(1, 20, 3));
    s.promote_waiting();
    assert!(s.waiting_seqs.is_empty());
    assert_eq!(s.active_seqs.len(), 1);
    let a = &s.active_seqs[0];
    // ceil(20 / 16) + 1 = 3 pages, the lowest free ones.
    assert_eq!(a.physical_pages, vec![0, 1, 2]);
    assert_eq!(a.block_table, vec![0, 1, 2]);
    assert_eq!(a.status, SequenceStatus::Running);
    assert_eq!(free_count(&s.page_pool), 7);
}

#[test]
fn promote_rolls_back_when_the_pool_runs_out() {
    let mut s = Scheduler::new(PagePool::new(1, 2, 2));
    s.add_request(request(1, 20, 3));
    s.promote_waiting();
    assert!(s.active_seqs.is_empty());
    assert_eq!(s.waiting_seqs.len(), 1);
    assert_eq!(s.waiting_seqs[0].status, SequenceStatus::Waiting);
    assert_eq!(free_count(&s.page_pool), 2);
}

#[test]
fn promote_stops_at_the_batch_limit() {
    let mut s = Scheduler::new(PagePool::new(1, 2, 100));
    for id in 0..17 {
        s.add_request(request(id, 1, 1));
    }
    s.promote_waiting();
    assert_eq!(s.active_seqs.len(), 16);
    assert_eq!(s.waiting_seqs.len(), 1);
    assert_eq!(s.waiting_seqs[0].seq_id, 16);
    // Each sequence of one token takes two pages.
    assert_eq!(free_count(&s.page_pool), 100 - 32);
    for (i, a) in s.active_seqs.iter().enumerate() {
        assert_eq!(a.seq_id, i as u32);
    }
}

#[test]
fn cleanup_releases_finished_sequences() {
    let mut s = Scheduler::new(PagePool::new(1, 2, 10));
    s.add_request(request(1, 4, 2));
    s.add_request(request(2, 4, 5));
    s.promote_waiting();
    assert_eq!(free_count(&s.page_pool), 6);
    s.active_seqs[0].generated_tokens = 2;
    let finished = s.post_step_cleanup();
    assert_eq!(finished, vec![1]);
    assert_eq!(s.active_seqs.len(), 1);
    assert_eq!(s.active_seqs[0].seq_id, 2);
    assert_eq!(free_count(&s.page_pool), 8);
}

#[test]
fn cleanup_grows_a_sequence_that_needs_a_page() {
    let mut s = Scheduler::new(PagePool::new(1, 2, 10));
    s.add_request(request(1, 16, 9));
    s.promote_waiting();
    // 16 tokens: one page plus one prefetched.
    assert_eq!(s.active_seqs[0].physical_pages, vec![0, 1]);
    s.active_seqs[0].num_tokens = 32;
    let finished = s.post_step_cleanup();
    assert!(finished.is_empty());
    // 33 tokens need three pages.
    assert_eq!(s.active_seqs[0].physical_pages, vec![0, 1, 2]);
    assert_eq!(s.active_seqs[0].block_table, vec![0, 1, 2]);
}

#[test]
fn cleanup_preempts_when_no_page_is_left() {
    let mut s = Scheduler::new(PagePool::new(1, 2, 2));
    s.add_request(request(1, 16, 9));
    s.add_request(request(2, 1, 9));
    s.promote_waiting();
    assert_eq!(s.active_seqs.len(), 1);
    assert_eq!(s.waiting_seqs.len(), 1);
    s.active_seqs[0].num_tokens = 32;
    let finished = s.post_step_cleanup();
    assert!(finished.is_empty());
    assert!(s.active_seqs.is_empty());
    assert_eq!(s.waiting_seqs.len(), 2);
    let p = &s.waiting_seqs[0];
    assert_eq!(p.seq_id, 1);
    assert_eq!(p.status, SequenceStatus::Waiting);
    assert!(p.physical_pages.is_empty());
    assert!(p.block_table.is_empty());
    assert_eq!(p.num_tokens, 32);
    assert_eq!(s.waiting_seqs[1].seq_id, 2);
    assert_eq!(free_count(&s.page_pool), 2);
}

#[test]
fn step_outputs_prefill_then_generation() {
    let mut s = Scheduler::new(PagePool::new(1, 2, 10));
    s.add_request(SequenceRequest { seq_id: 3, prompt_tokens: vec![10, 11, 12], max_new_tokens: 2 });
    s.promote_waiting();
    // Still in the prompt: the position advances, nothing is emitted.
    s.active_seqs[0].num_tokens = 0;
    let out = apply_step_outputs(&mut s, vec![(3, 99)]);
    assert!(out.is_empty());
    assert_eq!(s.active_seqs[0].num_tokens, 1);
    assert_eq!(s.active_seqs[0].prompt_tokens, vec![10, 11, 12]);
    assert_eq!(s.active_seqs[0].generated_tokens, 0);
    // At the end of the prompt the token is appended and emitted.
    s.active_seqs[0].num_tokens = 2;
    let out = apply_step_outputs(&mut s, vec![(3, 42)]);
    assert_eq!(out, vec![(3, 42)]);
    assert_eq!(s.active_seqs[0].prompt_tokens, vec![10, 11, 12, 42]);
    assert_eq!(s.active_seqs[0].num_tokens, 3);
    assert_eq!(s.active_seqs[0].generated_tokens, 1);
}

#[test]
fn step_outputs_finish_and_release() {
    let mut s = Scheduler::new(PagePool::new(1, 2, 10));
    s.add_request(SequenceRequest { seq_id: 8, prompt_tokens: vec![1, 2], max_new_tokens: 1 });
    s.promote_waiting();
    assert_eq!(free_count(&s.page_pool), 8);
    let out = apply_step_outputs(&mut s, vec![(8, 5), (77, 6)]);
    // The token of sequence 8 is emitted; one for an unknown sequence is not.
    assert_eq!(out, vec![(8, 5)]);
    // One new token reaches the limit: the sequence finishes and its pages return.
    assert!(s.active_seqs.is_empty());
    assert_eq!(free_count(&s.page_pool), 10);
}

#[test]
fn running_sequences_never_share_a_page() {
    let mut s = Scheduler::new(PagePool::new(1, 2, 12));
    for id in 0..5 {
        s.add_request(request(id, 17, 2));
    }
    s.promote_waiting();
    // Three pages each: four sequences fit in twelve pages.
    assert_eq!(s.active_seqs.len(), 4);
    s.active_seqs[1].generated_tokens = 2;
    s.post_step_cleanup();
    s.promote_waiting();
    let mut seen = std::collections::HashSet::new();
    for a in &s.active_seqs {
        for p in &a.physical_pages {
            assert!(seen.insert(*p), "page {} held twice", p);
            // A held page is not free.
            assert_eq!((s.page_pool.free_bitmap[*p as usize / 64] >> (*p % 64)) & 1, 0);
        }
    }
    assert_eq!(s.active_seqs.len(), 4);
    assert!(s.waiting_seqs.is_empty());
}

#[test]
fn no_sequence_is_lost() {
    let mut s = Scheduler::new(PagePool::new(1, 2, 6));
    for id in 0..4 {
        s.add_request(request(id, 17, 3));
    }
    s.promote_waiting();
    // Two sequences of three pages fill the pool; two wait.
    let mut before: Vec<u32> = s.active_seqs.iter().chain(s.waiting_seqs.iter()).map(|q| q.seq_id).collect();
    before.sort();
    s.active_seqs[0].generated_tokens = 3;
    s.active_seqs[1].num_tokens = 48;
    let mut after: Vec<u32> = s.post_step_cleanup();
    after.extend(s.active_seqs.iter().chain(s.waiting_seqs.iter()).map(|q| q.seq_id));
    after.sort();
    assert_eq!(before, vec![0, 1, 2, 3]);
    assert_eq!(after, before);
}

//! Continuous batching: requests wait in a FIFO queue, are promoted to the
//! running batch when the page pool can map their prompt (plus one page of
//! headroom), grow page by page while they generate, and give their pages
//! back when they finish or are preempted.
use vstd::prelude::*;
use crate::kv_cache::page_pool::{
    first_free, is_first_free, lemma_first_free_is, PagePool, PAGE_TOKENS,
};

verus! {

/// A request for a new sequence.
pub struct SequenceRequest {
    pub seq_id: u32,
    pub prompt_tokens: Vec<u32>,
    pub max_new_tokens: u32,
}

/// Where a sequence stands in the scheduler.
#[derive(PartialEq, Eq, Structural, Clone, Copy, Debug)]
pub enum SequenceStatus {
    Waiting,
    Running,
    Finished,
}

/// A sequence as the scheduler tracks it.
pub struct SequenceState {
    pub seq_id: u32,
    pub prompt_tokens: Vec<u32>,
    pub num_tokens: u32,
    pub max_new_tokens: u32,
    pub physical_pages: Vec<u32>,
    /// The physical KV block table.
    pub block_table: Vec<u32>,
    pub status: SequenceStatus,
    pub generated_tokens: u32,
}

/// The mathematical model of a [`SequenceState`].
#[verifier::ext_equal]
pub struct SeqModel {
    pub seq_id: u32,
    pub prompt: Seq<u32>,
    pub num_tokens: u32,
    pub max_new: u32,
    pub pages: Seq<u32>,
    pub block_table: Seq<u32>,
    pub status: SequenceStatus,
    pub generated: u32,
}

impl View for SequenceState {
    type V = SeqModel;

    open spec fn view(&self) -> SeqModel {
        SeqModel {
            seq_id: self.seq_id,
            prompt: self.prompt_tokens@,
            num_tokens: self.num_tokens,
            max_new: self.max_new_tokens,
            pages: self.physical_pages@,
            block_table: self.block_table@,
            status: self.status,
            generated: self.generated_tokens,
        }
    }
}

impl SequenceState {
    /// Number of tokens the sequence has in the cache.
    pub fn virtual_len(&self) -> (n: usize)
        ensures
            n == self.num_tokens,
    {
        self.num_tokens as usize
    }

    /// The physical page holding logical token position `pos`.
    pub fn physical_page(&self, pos: usize) -> (page: u32)
        requires
            pos / PAGE_TOKENS < self.block_table@.len(),
        ensures
            page == self.block_table@[(pos / PAGE_TOKENS) as int],
    {
        self.block_table[pos / PAGE_TOKENS]
    }

    /// The slot within its page of token position `pos`.
    pub fn slot_in_page(&self, pos: usize) -> (slot: usize)
        ensures
            slot == pos % PAGE_TOKENS,
            slot < PAGE_TOKENS,
            pos == (pos / PAGE_TOKENS) * PAGE_TOKENS + slot,
    {
        pos % PAGE_TOKENS
    }
}

/// The scheduler: the running batch, the waiting queue and the page pool
/// they draw from.
pub struct Scheduler {
    pub active_seqs: Vec<SequenceState>,
    pub waiting_seqs: Vec<SequenceState>,
    pub page_pool: PagePool,
    pub max_batch_size: usize,
}

/// The mathematical model of a [`Scheduler`].
#[verifier::ext_equal]
pub struct SchedModel {
    pub active: Seq<SeqModel>,
    pub waiting: Seq<SeqModel>,
    /// One flag per physical page, `true` when the page is free.
    pub free: Seq<bool>,
    pub max_batch: usize,
}

pub open spec fn seq_views(v: Seq<SequenceState>) -> Seq<SeqModel> {
    v.map_values(|s: SequenceState| s@)
}

impl View for Scheduler {
    type V = SchedModel;

    open spec fn view(&self) -> SchedModel {
        SchedModel {
            active: seq_views(self.active_seqs@),
            waiting: seq_views(self.waiting_seqs@),
            free: self.page_pool@,
            max_batch: self.max_batch_size,
        }
    }
}

/// Pages that hold `n` tokens.
pub open spec fn pages_needed(n: int) -> int {
    (n + PAGE_TOKENS - 1) / PAGE_TOKENS as int
}

/// Allocating `k` pages one after another, each the lowest free one; `None`
/// when the pool runs out before the `k`-th.
pub open spec fn alloc_pages(free: Seq<bool>, k: nat) -> Option<(Seq<u32>, Seq<bool>)>
    decreases k,
{
    if k == 0 {
        Some((Seq::empty(), free))
    } else {
        match alloc_pages(free, (k - 1) as nat) {
            None => None,
            Some((ps, f)) => match first_free(f) {
                None => None,
                Some(p) => Some((ps.push(p as u32), f.update(p, false))),
            },
        }
    }
}

/// Returning `pages` to the pool one after another.
pub open spec fn release_pages(free: Seq<bool>, pages: Seq<u32>) -> Seq<bool>
    decreases pages.len(),
{
    if pages.len() == 0 {
        free
    } else {
        release_pages(free, pages.drop_last()).update(pages.last() as int, true)
    }
}

/// A sequence with the given pages, mirrored into its block table, and status.
pub open spec fn with_pages(s: SeqModel, pages: Seq<u32>, status: SequenceStatus) -> SeqModel {
    SeqModel { pages: pages, block_table: pages, status: status, ..s }
}

/// What `promote_waiting` does: while the batch has room and a request
/// waits, map the head of the queue's pages (prompt plus one page of
/// headroom) and move it to the batch; stop at the first request the pool
/// cannot map, leaving the pool as it was.
pub open spec fn promote_spec(s: SchedModel) -> SchedModel
    decreases s.waiting.len(),
{
    if s.active.len() < s.max_batch && s.waiting.len() > 0 {
        let seq = s.waiting[0];
        match alloc_pages(s.free, (pages_needed(seq.num_tokens as int) + 1) as nat) {
            None => s,
            Some((ps, f)) => promote_spec(
                SchedModel {
                    active: s.active.push(with_pages(seq, ps, SequenceStatus::Running)),
                    waiting: s.waiting.drop_first(),
                    free: f,
                    max_batch: s.max_batch,
                },
            ),
        }
    } else {
        s
    }
}

/// What `post_step_cleanup` does from position `i` of the batch on, with
/// the ids of finished sequences collected so far.
pub open spec fn cleanup_from(s: SchedModel, i: int, finished: Seq<u32>) -> (SchedModel, Seq<u32>)
    decreases s.active.len() - i,
{
    if i < 0 || i >= s.active.len() {
        (s, finished)
    } else {
        let seq0 = s.active[i];
        let seq = if seq0.generated >= seq0.max_new {
            SeqModel { status: SequenceStatus::Finished, ..seq0 }
        } else {
            seq0
        };
        if seq.status == SequenceStatus::Finished {
            cleanup_from(
                SchedModel {
                    active: s.active.remove(i),
                    free: release_pages(s.free, seq.pages),
                    ..s
                },
                i,
                finished.push(seq.seq_id),
            )
        } else if pages_needed(seq.num_tokens + 1) > seq.pages.len() {
            match first_free(s.free) {
                Some(p) => cleanup_from(
                    SchedModel {
                        active: s.active.update(
                            i,
                            SeqModel {
                                pages: seq.pages.push(p as u32),
                                block_table: seq.block_table.push(p as u32),
                                ..seq
                            },
                        ),
                        free: s.free.update(p, false),
                        ..s
                    },
                    i + 1,
                    finished,
                ),
                None => cleanup_from(
                    SchedModel {
                        active: s.active.remove(i),
                        waiting: seq![with_pages(seq, Seq::empty(), SequenceStatus::Waiting)]
                            + s.waiting,
                        free: release_pages(s.free, seq.pages),
                        ..s
                    },
                    i,
                    finished,
                ),
            }
        } else {
            cleanup_from(s, i + 1, finished)
        }
    }
}

/// Every page of every running sequence lies in the pool.
pub open spec fn pages_in_range(active: Seq<SeqModel>, total: int) -> bool {
    forall|i: int, k: int|
        0 <= i < active.len() && 0 <= k < active[i].pages.len() ==> #[trigger] active[i].pages[k]
            < total
}

/// Releasing pages frees exactly those pages.
pub proof fn lemma_release_pointwise(free: Seq<bool>, pages: Seq<u32>)
    requires
        free.len() <= u32::MAX,
        forall|k: int| 0 <= k < pages.len() ==> (#[trigger] pages[k] as int) < free.len(),
    ensures
        release_pages(free, pages).len() == free.len(),
        forall|q: int|
            0 <= q < free.len() ==> #[trigger] release_pages(free, pages)[q] == (pages.contains(
                q as u32,
            ) || free[q]),
    decreases pages.len(),
{
    if pages.len() > 0 {
        assert forall|k: int| 0 <= k < pages.drop_last().len() implies (#[trigger] pages.drop_last()[k] as int) < free.len() by {
            assert(pages.drop_last()[k] == pages[k]);
        }
        lemma_release_pointwise(free, pages.drop_last());
        assert(pages[pages.len() - 1] == pages.last());
        assert forall|q: int| 0 <= q < free.len() implies #[trigger] release_pages(free, pages)[q]
            == (pages.contains(q as u32) || free[q]) by {
            if pages.drop_last().contains(q as u32) {
                let k = choose|k: int|
                    0 <= k < pages.drop_last().len() && pages.drop_last()[k] == q as u32;
                assert(pages[k] == q as u32);
            }
            if pages.contains(q as u32) && q != pages.last() as int {
                let k = choose|k: int| 0 <= k < pages.len() && pages[k] == q as u32;
                assert(k != pages.len() - 1);
                assert(pages.drop_last()[k] == q as u32);
            }
            if q == pages.last() as int {
                assert(pages[pages.len() - 1] == q as u32);
            }
        }
    }
}

/// The pages handed out by `alloc_pages` are distinct, were free, and are
/// exactly the pages the allocation took from the pool.
pub proof fn lemma_alloc_pages(free: Seq<bool>, k: nat)
    requires
        free.len() <= u32::MAX,
    ensures
        alloc_pages(free, k) matches Some((ps, f)) ==> {
            &&& ps.len() == k
            &&& f.len() == free.len()
            &&& forall|j: int| 0 <= j < ps.len() ==> (#[trigger] ps[j] as int) < free.len()
            &&& forall|j: int| 0 <= j < ps.len() ==> free[#[trigger] ps[j] as int]
            &&& forall|j1: int, j2: int|
                0 <= j1 < j2 < ps.len() ==> #[trigger] ps[j1] != #[trigger] ps[j2]
            &&& forall|q: int|
                0 <= q < free.len() ==> #[trigger] f[q] == (free[q] && !ps.contains(q as u32))
        },
    decreases k,
{
    if k > 0 {
        lemma_alloc_pages(free, (k - 1) as nat);
        if let Some((ps0, f0)) = alloc_pages(free, (k - 1) as nat) {
            if let Some(p) = first_free(f0) {
                assert(is_first_free(f0, choose|p: int| is_first_free(f0, p)));
                let ps = ps0.push(p as u32);
                let f = f0.update(p, false);
                assert(ps[ps.len() - 1] == p as u32);
                assert forall|j: int| 0 <= j < ps.len() implies free[#[trigger] ps[j] as int] by {
                    if j < ps0.len() {
                        assert(ps[j] == ps0[j]);
                    } else {
                        assert(f0[p]);
                    }
                }
                assert forall|j1: int, j2: int|
                    0 <= j1 < j2 < ps.len() implies #[trigger] ps[j1] != #[trigger] ps[j2] by {
                    if j2 == ps.len() - 1 {
                        assert(ps[j1] == ps0[j1]);
                        assert(ps0.contains(ps0[j1]));
                        assert(!f0[ps0[j1] as int]);
                    } else {
                        assert(ps[j1] == ps0[j1] && ps[j2] == ps0[j2]);
                    }
                }
                assert forall|q: int| 0 <= q < free.len() implies #[trigger] f[q] == (free[q]
                    && !ps.contains(q as u32)) by {
                    if ps0.contains(q as u32) {
                        let j = choose|j: int| 0 <= j < ps0.len() && ps0[j] == q as u32;
                        assert(ps[j] == q as u32);
                    }
                    if ps.contains(q as u32) && q != p {
                        let j = choose|j: int| 0 <= j < ps.len() && ps[j] == q as u32;
                        assert(j != ps.len() - 1);
                        assert(ps0[j] == q as u32);
                    }
                    if q == p {
                        assert(ps[ps.len() - 1] == q as u32);
                    }
                }
            }
        }
    }
}

/// Once the pool runs out, asking for more pages still fails.
pub proof fn lemma_alloc_pages_none(free: Seq<bool>, j: nat, k: nat)
    requires
        j <= k,
        alloc_pages(free, j) is None,
    ensures
        alloc_pages(free, k) is None,
    decreases k,
{
    if k > j {
        lemma_alloc_pages_none(free, j, (k - 1) as nat);
    }
}

/// Handing back the pages of a partial allocation restores the pool.
pub proof fn lemma_alloc_release_restores(free: Seq<bool>, k: nat)
    requires
        free.len() <= u32::MAX,
    ensures
        alloc_pages(free, k) matches Some((ps, f)) ==> release_pages(f, ps) == free,
{
    lemma_alloc_pages(free, k);
    if let Some((ps, f)) = alloc_pages(free, k) {
        lemma_release_pointwise(f, ps);
        assert forall|q: int| 0 <= q < free.len() implies #[trigger] release_pages(f, ps)[q]
            == free[q] by {
            if ps.contains(q as u32) {
                let j = choose|j: int| 0 <= j < ps.len() && ps[j] == q as u32;
                assert(free[ps[j] as int]);
            }
        }
        assert(release_pages(f, ps) =~= free);
    }
}

/// Return `pages` to the pool in order.
fn release_all(pool: &mut PagePool, pages: &Vec<u32>)
    requires
        old(pool).wf(),
        forall|k: int| 0 <= k < pages@.len() ==> #[trigger] pages@[k] < old(pool).total_pages,
    ensures
        final(pool).wf(),
        final(pool).total_pages == old(pool).total_pages,
        final(pool).page_stride == old(pool).page_stride,
        final(pool).slab_len == old(pool).slab_len,
        final(pool).slab == old(pool).slab,
        final(pool)@ == release_pages(old(pool)@, pages@),
        final(pool)@.len() == old(pool)@.len(),
{
    proof {
        old(pool).lemma_view_len();
        old(pool).lemma_wf_pages();
        lemma_release_pointwise(old(pool)@, pages@);
    }
    let n = pages.len();
    let mut j: usize = 0;
    while j < n
        invariant
            n == pages@.len(),
            j <= n,
            pool.wf(),
            pool.total_pages == old(pool).total_pages,
            pool.page_stride == old(pool).page_stride,
            pool.slab_len == old(pool).slab_len,
            pool.slab == old(pool).slab,
            forall|k: int| 0 <= k < pages@.len() ==> #[trigger] pages@[k] < old(pool).total_pages,
            pool@ == release_pages(old(pool)@, pages@.take(j as int)),
        decreases n - j,
    {
        pool.free_page(pages[j]);
        assert(pages@.take(j + 1).drop_last() =~= pages@.take(j as int));
        j += 1;
    }
    assert(pages@.take(n as int) =~= pages@);
}

/// Allocate `k` pages, or none at all: when the pool runs out part-way, the
/// pages taken so far go back and the pool is as it was.
fn alloc_or_rollback(pool: &mut PagePool, k: usize) -> (res: Option<Vec<u32>>)
    requires
        old(pool).wf(),
    ensures
        final(pool).wf(),
        final(pool).total_pages == old(pool).total_pages,
        final(pool).page_stride == old(pool).page_stride,
        final(pool).slab_len == old(pool).slab_len,
        final(pool).slab == old(pool).slab,
        match alloc_pages(old(pool)@, k as nat) {
            Some((ps, f)) => res matches Some(v) && v@ == ps && final(pool)@ == f,
            None => res is None && final(pool)@ == old(pool)@,
        },
{
    let ghost free0 = pool@;
    proof {
        pool.lemma_wf_pages();
        pool.lemma_view_len();
    }
    let mut mapped: Vec<u32> = Vec::with_capacity(k);
    let mut j: usize = 0;
    while j < k
        invariant
            j <= k,
            pool.wf(),
            pool.total_pages == old(pool).total_pages,
            pool.page_stride == old(pool).page_stride,
            pool.slab_len == old(pool).slab_len,
            pool.slab == old(pool).slab,
            free0 == old(pool)@,
            free0.len() <= u32::MAX,
            alloc_pages(free0, j as nat) == Some((mapped@, pool@)),
        decreases k - j,
    {
        match pool.alloc_page() {
            Some(p) => {
                mapped.push(p);
            },
            None => {
                proof {
                    lemma_alloc_pages_none(free0, (j + 1) as nat, k as nat);
                    lemma_alloc_release_restores(free0, j as nat);
                    lemma_alloc_pages(free0, j as nat);
                    old(pool).lemma_view_len();
                }
                release_all(pool, &mapped);
                return None;
            },
        }
        j += 1;
    }
    Some(mapped)
}

/// Pages for `n` tokens, computed without overflow.
fn pages_for(n: u64) -> (r: usize)
    requires
        n <= u32::MAX + 1,
    ensures
        r == pages_needed(n as int),
{
    (n / PAGE_TOKENS as u64 + if n % PAGE_TOKENS as u64 != 0 {
        1
    } else {
        0
    }) as usize
}

impl Scheduler {
    /// A scheduler with empty queues over `pool`, batching up to 16 sequences.
    pub fn new(pool: PagePool) -> (s: Self)
        ensures
            s.active_seqs@.len() == 0,
            s.waiting_seqs@.len() == 0,
            s.page_pool == pool,
            s.max_batch_size == 16,
    {
        Scheduler {
            active_seqs: Vec::new(),
            waiting_seqs: Vec::new(),
            page_pool: pool,
            max_batch_size: 16,
        }
    }

    /// Queue a request at the back of the waiting queue.
    pub fn add_request(&mut self, req: SequenceRequest)
        ensures
            final(self)@ == (SchedModel {
                waiting: old(self)@.waiting.push(
                    SeqModel {
                        seq_id: req.seq_id,
                        prompt: req.prompt_tokens@,
                        num_tokens: req.prompt_tokens@.len() as u32,
                        max_new: req.max_new_tokens,
                        pages: Seq::empty(),
                        block_table: Seq::empty(),
                        status: SequenceStatus::Waiting,
                        generated: 0,
                    },
                ),
                ..old(self)@
            }),
            final(self).page_pool == old(self).page_pool,
    {
        let num_tokens = req.prompt_tokens.len() as u32;
        self.waiting_seqs.push(
            SequenceState {
                seq_id: req.seq_id,
                num_tokens: num_tokens,
                prompt_tokens: req.prompt_tokens,
                max_new_tokens: req.max_new_tokens,
                physical_pages: Vec::new(),
                block_table: Vec::new(),
                status: SequenceStatus::Waiting,
                generated_tokens: 0,
            },
        );
        assert(seq_views(self.waiting_seqs@) =~= seq_views(old(self).waiting_seqs@).push(
            self.waiting_seqs@.last()@,
        ));
    }

    /// Move waiting requests into the running batch while it has room and
    /// the pool can map them.
    pub fn promote_waiting(&mut self)
        requires
            old(self).page_pool.wf(),
        ensures
            final(self).page_pool.wf(),
            final(self).page_pool.total_pages == old(self).page_pool.total_pages,
            final(self).page_pool.page_stride == old(self).page_pool.page_stride,
            final(self).page_pool.slab_len == old(self).page_pool.slab_len,
            final(self).page_pool.slab == old(self).page_pool.slab,
            final(self)@ == promote_spec(old(self)@),
    {
        loop
            invariant
                self.page_pool.wf(),
                self.page_pool.total_pages == old(self).page_pool.total_pages,
                self.page_pool.page_stride == old(self).page_pool.page_stride,
                self.page_pool.slab_len == old(self).page_pool.slab_len,
                self.page_pool.slab == old(self).page_pool.slab,
                promote_spec(self@) == promote_spec(old(self)@),
            ensures
                self.page_pool.wf(),
                self.page_pool.total_pages == old(self).page_pool.total_pages,
                self.page_pool.page_stride == old(self).page_pool.page_stride,
                self.page_pool.slab_len == old(self).page_pool.slab_len,
                self.page_pool.slab == old(self).page_pool.slab,
                self@ == promote_spec(old(self)@),
            decreases self.waiting_seqs@.len(),
        {
            if !(self.active_seqs.len() < self.max_batch_size && !self.waiting_seqs.is_empty()) {
                break;
            }
            let ghost s = self@;
            let required_pages = pages_for(self.waiting_seqs[0].num_tokens as u64);
            let prefetch_pages = required_pages + 1;
            let mapped = alloc_or_rollback(&mut self.page_pool, prefetch_pages);
            match mapped {
                None => {
                    assert(self@ =~= s);
                    break;
                },
                Some(mapped_pages) => {
                    let mut seq = self.waiting_seqs.remove(0);
                    seq.physical_pages = mapped_pages.clone();
                    seq.block_table = mapped_pages;
                    seq.status = SequenceStatus::Running;
                    self.active_seqs.push(seq);
                    proof {
                        let ps = mapped_pages@;
                        assert(seq_views(self.waiting_seqs@) =~= s.waiting.drop_first());
                        assert(seq_views(self.active_seqs@) =~= s.active.push(
                            with_pages(s.waiting[0], ps, SequenceStatus::Running),
                        ));
                    }
                },
            }
        }
    }

    /// The running batch.
    pub fn running_sequences(&self) -> (r: &[SequenceState])
        ensures
            r@ == self.active_seqs@,
    {
        self.active_seqs.as_slice()
    }

    /// After a step: retire sequences that reached their token budget (or
    /// are marked finished), grow the others by a page when their next token
    /// needs one, and preempt a sequence back to the front of the queue when
    /// the pool cannot give it that page.  Returns the ids of the retired
    /// sequences, in batch order.
    pub fn post_step_cleanup(&mut self) -> (finished: Vec<u32>)
        requires
            old(self).page_pool.wf(),
            pages_in_range(old(self)@.active, old(self).page_pool.total_pages as int),
        ensures
            final(self).page_pool.wf(),
            final(self).page_pool.total_pages == old(self).page_pool.total_pages,
            final(self).page_pool.page_stride == old(self).page_pool.page_stride,
            final(self).page_pool.slab_len == old(self).page_pool.slab_len,
            final(self).page_pool.slab == old(self).page_pool.slab,
            (final(self)@, finished@) == cleanup_from(old(self)@, 0, Seq::empty()),
    {
        let mut finished: Vec<u32> = Vec::new();
        let mut i: usize = 0;
        let ghost total = self.page_pool.total_pages as int;
        proof {
            self.page_pool.lemma_wf_pages();
            self.page_pool.lemma_view_len();
        }
        while i < self.active_seqs.len()
            invariant
                i <= self.active_seqs@.len(),
                self.page_pool.wf(),
                total == self.page_pool.total_pages,
                total <= u32::MAX,
                self.page_pool@.len() == total,
                self.page_pool.total_pages == old(self).page_pool.total_pages,
                self.page_pool.page_stride == old(self).page_pool.page_stride,
                self.page_pool.slab_len == old(self).page_pool.slab_len,
                self.page_pool.slab == old(self).page_pool.slab,
                pages_in_range(self@.active, total),
                cleanup_from(self@, i as int, finished@) == cleanup_from(
                    old(self)@,
                    0,
                    Seq::empty(),
                ),
            decreases self.active_seqs@.len() - i,
        {
            let ghost s = self@;
            let ghost fin = finished@;
            let mut seq = self.active_seqs.remove(i);
            proof {
                assert(seq@ == s.active[i as int]);
                assert(seq_views(self.active_seqs@) =~= s.active.remove(i as int));
                assert forall|k: int| 0 <= k < seq.physical_pages@.len() implies #[trigger] seq.physical_pages@[k]
                    < total by {
                    assert(s.active[i as int].pages[k] < total);
                }
            }
            proof {
                self.page_pool.lemma_view_len();
            }
            if seq.generated_tokens >= seq.max_new_tokens {
                seq.status = SequenceStatus::Finished;
            }
            if seq.status == SequenceStatus::Finished {
                release_all(&mut self.page_pool, &seq.physical_pages);
                finished.push(seq.seq_id);
                proof {
                    assert(pages_in_range(self@.active, total));
                }
            } else {
                let required_pages = pages_for(seq.num_tokens as u64 + 1);
                if required_pages > seq.physical_pages.len() {
                    match self.page_pool.alloc_page() {
                        Some(p) => {
                            proof {
                                let pp = choose|p: int| is_first_free(s.free, p);
                                assert(is_first_free(s.free, pp));
                            }
                            seq.physical_pages.push(p);
                            seq.block_table.push(p);
                            self.active_seqs.insert(i, seq);
                            proof {
                                let seq2 = SeqModel {
                                    pages: s.active[i as int].pages.push(p),
                                    block_table: s.active[i as int].block_table.push(p),
                                    ..s.active[i as int]
                                };
                                assert(seq_views(self.active_seqs@) =~= s.active.update(
                                    i as int,
                                    seq2,
                                ));
                                assert(pages_in_range(self@.active, total)) by {
                                    assert forall|a: int, k: int|
                                        0 <= a < self@.active.len() && 0 <= k
                                            < self@.active[a].pages.len() implies #[trigger] self@.active[a].pages[k]
                                        < total by {
                                        if a != i {
                                            assert(self@.active[a] == s.active[a]);
                                        } else if k < s.active[a].pages.len() {
                                            assert(self@.active[a].pages[k]
                                                == s.active[a].pages[k]);
                                        }
                                    }
                                }
                            }
                            i += 1;
                        },
                        None => {
                            release_all(&mut self.page_pool, &seq.physical_pages);
                            seq.physical_pages.clear();
                            seq.block_table.clear();
                            seq.status = SequenceStatus::Waiting;
                            self.waiting_seqs.insert(0, seq);
                            proof {
                                assert(seq_views(self.waiting_seqs@) =~= seq![
                                    with_pages(
                                        s.active[i as int],
                                        Seq::empty(),
                                        SequenceStatus::Waiting,
                                    ),
                                ] + s.waiting);
                                assert(pages_in_range(self@.active, total));
                            }
                        },
                    }
                } else {
                    self.active_seqs.insert(i, seq);
                    proof {
                        assert(seq_views(self.active_seqs@) =~= s.active);
                    }
                    i += 1;
                }
            }
        }
        finished
    }
}

} // verus!

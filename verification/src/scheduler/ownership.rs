//! The page-ownership invariant of the scheduler: a physical page is in use
//! exactly when one sequence of the batch holds it, no page is held twice,
//! and waiting sequences hold no page.  Every scheduler operation keeps it,
//! and the post-step cleanup leaves every sequence of the batch unfinished
//! with a page for its next token.
use vstd::prelude::*;
use crate::kv_cache::page_pool::{first_free, is_first_free};
use crate::scheduler::batching::{
    alloc_pages, cleanup_from, lemma_alloc_pages, lemma_release_pointwise, pages_in_range,
    pages_needed, promote_spec, release_pages, with_pages, SchedModel, SeqModel, SequenceStatus,
};

verus! {

/// Some running sequence holds page `p`.
pub open spec fn page_owned(active: Seq<SeqModel>, p: u32) -> bool {
    exists|i: int| 0 <= i < active.len() && #[trigger] active[i].pages.contains(p)
}

/// No page is held by two running sequences, nor twice by one.
pub open spec fn pages_disjoint(active: Seq<SeqModel>) -> bool {
    &&& forall|i: int| 0 <= i < active.len() ==> (#[trigger] active[i]).pages.no_duplicates()
    &&& forall|i1: int, i2: int, q: u32|
        0 <= i1 < active.len() && 0 <= i2 < active.len() && i1 != i2
            && #[trigger] active[i1].pages.contains(q) ==> !#[trigger] active[i2].pages.contains(q)
}

/// The scheduler's invariant.
pub open spec fn sched_inv(s: SchedModel) -> bool {
    &&& s.free.len() <= u32::MAX
    &&& pages_in_range(s.active, s.free.len() as int)
    &&& forall|p: int| 0 <= p < s.free.len() ==> (!#[trigger] s.free[p] <==> page_owned(s.active, p as u32))
    &&& pages_disjoint(s.active)
    &&& forall|i: int|
        0 <= i < s.active.len() ==> (#[trigger] s.active[i]).block_table == s.active[i].pages
    &&& forall|i: int|
        0 <= i < s.waiting.len() ==> (#[trigger] s.waiting[i]).pages.len() == 0
            && s.waiting[i].block_table.len() == 0 && s.waiting[i].status == SequenceStatus::Waiting
}

/// A fresh scheduler over a pool with every page free satisfies the invariant.
pub proof fn law_fresh_scheduler_inv(free: Seq<bool>, max_batch: usize)
    requires
        free.len() <= u32::MAX,
        forall|p: int| 0 <= p < free.len() ==> #[trigger] free[p],
    ensures
        sched_inv(SchedModel { active: Seq::empty(), waiting: Seq::empty(), free, max_batch }),
{
}

/// Queueing a request keeps the invariant.
pub proof fn law_add_request_keeps_inv(s: SchedModel, req: SeqModel)
    requires
        sched_inv(s),
        req.pages.len() == 0,
        req.block_table.len() == 0,
        req.status == SequenceStatus::Waiting,
    ensures
        sched_inv(SchedModel { waiting: s.waiting.push(req), ..s }),
{
    let s2 = SchedModel { waiting: s.waiting.push(req), ..s };
    assert forall|i: int| 0 <= i < s2.waiting.len() implies (#[trigger] s2.waiting[i]).pages.len()
        == 0 && s2.waiting[i].block_table.len() == 0 && s2.waiting[i].status
        == SequenceStatus::Waiting by {
        if i < s.waiting.len() {
            assert(s2.waiting[i] == s.waiting[i]);
        }
    }
}

proof fn lemma_promote_step(s: SchedModel, ps: Seq<u32>, f: Seq<bool>)
    requires
        sched_inv(s),
        s.waiting.len() > 0,
        alloc_pages(s.free, (pages_needed(s.waiting[0].num_tokens as int) + 1) as nat) == Some(
            (ps, f),
        ),
    ensures
        sched_inv(
            SchedModel {
                active: s.active.push(with_pages(s.waiting[0], ps, SequenceStatus::Running)),
                waiting: s.waiting.drop_first(),
                free: f,
                max_batch: s.max_batch,
            },
        ),
{
    let k = (pages_needed(s.waiting[0].num_tokens as int) + 1) as nat;
    lemma_alloc_pages(s.free, k);
    let new_seq = with_pages(s.waiting[0], ps, SequenceStatus::Running);
    let s2 = SchedModel {
        active: s.active.push(new_seq),
        waiting: s.waiting.drop_first(),
        free: f,
        max_batch: s.max_batch,
    };
    let n = s.active.len();
    assert(s2.active[n as int] == new_seq);
    assert forall|i: int| 0 <= i < n implies s2.active[i] == s.active[i] by {}
    // pages of the new sequence lie in the pool
    assert(pages_in_range(s2.active, s2.free.len() as int)) by {
        assert forall|i: int, j: int|
            0 <= i < s2.active.len() && 0 <= j < s2.active[i].pages.len() implies #[trigger] s2.active[i].pages[j]
            < s2.free.len() by {
            if i < n {
                assert(s2.active[i] == s.active[i]);
            } else {
                assert((ps[j] as int) < s.free.len());
            }
        }
    }
    // a page of the new sequence was free, so no old sequence holds it
    assert forall|i: int, q: u32|
        0 <= i < n && #[trigger] s.active[i].pages.contains(q) implies !ps.contains(q) by {
        let j = choose|j: int| 0 <= j < s.active[i].pages.len() && s.active[i].pages[j] == q;
        assert(s.active[i].pages[j] < s.free.len());
        assert(!s.free[q as int]);
        if ps.contains(q) {
            let jj = choose|jj: int| 0 <= jj < ps.len() && ps[jj] == q;
            assert(s.free[ps[jj] as int]);
        }
    }
    assert forall|p: int| 0 <= p < s2.free.len() implies (!#[trigger] s2.free[p] <==> page_owned(
        s2.active,
        p as u32,
    )) by {
        if !s2.free[p] {
            if ps.contains(p as u32) {
                assert(s2.active[n as int].pages.contains(p as u32));
            } else {
                assert(!s.free[p]);
                assert(page_owned(s.active, p as u32));
                let i = choose|i: int| 0 <= i < s.active.len() && #[trigger] s.active[i].pages.contains(p as u32);
                assert(s2.active[i] == s.active[i]);
            }
        }
        if page_owned(s2.active, p as u32) {
            let i = choose|i: int| 0 <= i < s2.active.len() && #[trigger] s2.active[i].pages.contains(p as u32);
            if i < n {
                assert(s2.active[i] == s.active[i]);
                assert(page_owned(s.active, p as u32));
            }
        }
    }
    assert(pages_disjoint(s2.active)) by {
        assert forall|i: int| 0 <= i < s2.active.len() implies (#[trigger] s2.active[i]).pages.no_duplicates() by {
            if i < n {
                assert(s2.active[i] == s.active[i]);
            }
        }
        assert forall|i1: int, i2: int, q: u32|
            0 <= i1 < s2.active.len() && 0 <= i2 < s2.active.len() && i1 != i2
                && #[trigger] s2.active[i1].pages.contains(q) implies !#[trigger] s2.active[i2].pages.contains(q) by {
            if i1 < n && i2 < n {
                assert(s2.active[i1] == s.active[i1]);
                assert(s2.active[i2] == s.active[i2]);
            } else if i1 < n {
                assert(s2.active[i1] == s.active[i1]);
            } else {
                assert(s2.active[i2] == s.active[i2]);
                if s2.active[i2].pages.contains(q) {
                    assert(s.active[i2].pages.contains(q));
                }
            }
        }
    }
    assert forall|i: int| 0 <= i < s2.active.len() implies (#[trigger] s2.active[i]).block_table
        == s2.active[i].pages by {
        if i < n {
            assert(s2.active[i] == s.active[i]);
        }
    }
    assert forall|i: int| 0 <= i < s2.waiting.len() implies (#[trigger] s2.waiting[i]).pages.len()
        == 0 && s2.waiting[i].block_table.len() == 0 && s2.waiting[i].status
        == SequenceStatus::Waiting by {
        assert(s2.waiting[i] == s.waiting[i + 1]);
    }
}

/// Promoting waiting requests keeps the invariant and never overfills the
/// batch.
pub proof fn law_promote_keeps_inv(s: SchedModel)
    requires
        sched_inv(s),
    ensures
        sched_inv(promote_spec(s)),
        s.active.len() <= s.max_batch ==> promote_spec(s).active.len() <= s.max_batch,
        promote_spec(s).max_batch == s.max_batch,
    decreases s.waiting.len(),
{
    if s.active.len() < s.max_batch && s.waiting.len() > 0 {
        let seq = s.waiting[0];
        if let Some((ps, f)) = alloc_pages(s.free, (pages_needed(seq.num_tokens as int) + 1) as nat) {
            lemma_promote_step(s, ps, f);
            law_promote_keeps_inv(
                SchedModel {
                    active: s.active.push(with_pages(seq, ps, SequenceStatus::Running)),
                    waiting: s.waiting.drop_first(),
                    free: f,
                    max_batch: s.max_batch,
                },
            );
        }
    }
}

/// Removing sequence `i` from the batch and releasing its pages keeps every
/// part of the invariant about the batch and the pool.
proof fn lemma_remove_release(s: SchedModel, i: int)
    requires
        sched_inv(s),
        0 <= i < s.active.len(),
    ensures
        ({
            let s2 = SchedModel {
                active: s.active.remove(i),
                free: release_pages(s.free, s.active[i].pages),
                ..s
            };
            &&& s2.free.len() == s.free.len()
            &&& pages_in_range(s2.active, s2.free.len() as int)
            &&& forall|p: int|
                0 <= p < s2.free.len() ==> (!#[trigger] s2.free[p] <==> page_owned(
                    s2.active,
                    p as u32,
                ))
            &&& pages_disjoint(s2.active)
            &&& forall|j: int|
                0 <= j < s2.active.len() ==> (#[trigger] s2.active[j]).block_table
                    == s2.active[j].pages
        }),
{
    let pages = s.active[i].pages;
    assert forall|k: int| 0 <= k < pages.len() implies (#[trigger] pages[k] as int) < s.free.len() by {
        assert(s.active[i].pages[k] < s.free.len());
    }
    lemma_release_pointwise(s.free, pages);
    let s2 = SchedModel { active: s.active.remove(i), free: release_pages(s.free, pages), ..s };
    let n = s.active.len();
    assert forall|j: int| 0 <= j < n - 1 implies #[trigger] s2.active[j] == s.active[if j < i {
        j
    } else {
        j + 1
    }] by {}
    assert(pages_in_range(s2.active, s2.free.len() as int)) by {
        assert forall|a: int, k: int|
            0 <= a < s2.active.len() && 0 <= k < s2.active[a].pages.len() implies #[trigger] s2.active[a].pages[k]
            < s2.free.len() by {
            let b = if a < i {
                a
            } else {
                a + 1
            };
            assert(s2.active[a] == s.active[b]);
            assert(s.active[b].pages[k] < s.free.len());
        }
    }
    assert forall|p: int| 0 <= p < s2.free.len() implies (!#[trigger] s2.free[p] <==> page_owned(
        s2.active,
        p as u32,
    )) by {
        if !s2.free[p] {
            assert(!s.free[p]);
            assert(page_owned(s.active, p as u32));
            let a = choose|a: int| 0 <= a < s.active.len() && #[trigger] s.active[a].pages.contains(p as u32);
            assert(a != i);
            let b = if a < i {
                a
            } else {
                a - 1
            };
            assert(s2.active[b] == s.active[a]);
        }
        if page_owned(s2.active, p as u32) {
            let a = choose|a: int| 0 <= a < s2.active.len() && #[trigger] s2.active[a].pages.contains(p as u32);
            let b = if a < i {
                a
            } else {
                a + 1
            };
            assert(s2.active[a] == s.active[b]);
            assert(s.active[b].pages.contains(p as u32));
            assert(page_owned(s.active, p as u32));
            assert(b != i);
            assert(!pages.contains(p as u32));
        }
    }
    assert(pages_disjoint(s2.active)) by {
        assert forall|a: int| 0 <= a < s2.active.len() implies (#[trigger] s2.active[a]).pages.no_duplicates() by {
            let b = if a < i {
                a
            } else {
                a + 1
            };
            assert(s2.active[a] == s.active[b]);
        }
        assert forall|a1: int, a2: int, q: u32|
            0 <= a1 < s2.active.len() && 0 <= a2 < s2.active.len() && a1 != a2
                && #[trigger] s2.active[a1].pages.contains(q) implies !#[trigger] s2.active[a2].pages.contains(q) by {
            let b1 = if a1 < i {
                a1
            } else {
                a1 + 1
            };
            let b2 = if a2 < i {
                a2
            } else {
                a2 + 1
            };
            assert(s2.active[a1] == s.active[b1]);
            assert(s2.active[a2] == s.active[b2]);
            assert(s.active[b1].pages.contains(q));
        }
    }
    assert forall|j: int| 0 <= j < s2.active.len() implies (#[trigger] s2.active[j]).block_table
        == s2.active[j].pages by {
        let b = if j < i {
            j
        } else {
            j + 1
        };
        assert(s2.active[j] == s.active[b]);
    }
}

proof fn lemma_grow_step(s: SchedModel, i: int, p: int)
    requires
        sched_inv(s),
        0 <= i < s.active.len(),
        is_first_free(s.free, p),
    ensures
        sched_inv(
            SchedModel {
                active: s.active.update(
                    i,
                    SeqModel {
                        pages: s.active[i].pages.push(p as u32),
                        block_table: s.active[i].block_table.push(p as u32),
                        ..s.active[i]
                    },
                ),
                free: s.free.update(p, false),
                ..s
            },
        ),
{
    let old_seq = s.active[i];
    let new_seq = SeqModel {
        pages: old_seq.pages.push(p as u32),
        block_table: old_seq.block_table.push(p as u32),
        ..old_seq
    };
    let s2 = SchedModel { active: s.active.update(i, new_seq), free: s.free.update(p, false), ..s };
    // no running sequence holds the free page
    assert forall|a: int| 0 <= a < s.active.len() implies !(#[trigger] s.active[a]).pages.contains(
        p as u32,
    ) by {
        if s.active[a].pages.contains(p as u32) {
            assert(page_owned(s.active, p as u32));
        }
    }
    assert forall|q: u32| #[trigger] new_seq.pages.contains(q) <==> (old_seq.pages.contains(q) || q
        == p as u32) by {
        if new_seq.pages.contains(q) {
            let k = choose|k: int| 0 <= k < new_seq.pages.len() && new_seq.pages[k] == q;
            if k < old_seq.pages.len() {
                assert(old_seq.pages[k] == q);
            }
        }
        if old_seq.pages.contains(q) {
            let k = choose|k: int| 0 <= k < old_seq.pages.len() && old_seq.pages[k] == q;
            assert(new_seq.pages[k] == q);
        }
        if q == p as u32 {
            assert(new_seq.pages[old_seq.pages.len() as int] == q);
        }
    }
    assert(pages_in_range(s2.active, s2.free.len() as int)) by {
        assert forall|a: int, k: int|
            0 <= a < s2.active.len() && 0 <= k < s2.active[a].pages.len() implies #[trigger] s2.active[a].pages[k]
            < s2.free.len() by {
            if a != i {
                assert(s2.active[a] == s.active[a]);
            } else if k < old_seq.pages.len() {
                assert(s2.active[a].pages[k] == old_seq.pages[k]);
            }
        }
    }
    assert forall|q: int| 0 <= q < s2.free.len() implies (!#[trigger] s2.free[q] <==> page_owned(
        s2.active,
        q as u32,
    )) by {
        if q == p {
            assert(s2.active[i].pages.contains(p as u32));
        } else {
            if !s2.free[q] {
                assert(page_owned(s.active, q as u32));
                let a = choose|a: int| 0 <= a < s.active.len() && #[trigger] s.active[a].pages.contains(q as u32);
                if a != i {
                    assert(s2.active[a] == s.active[a]);
                } else {
                    assert(s2.active[i].pages.contains(q as u32));
                }
            }
            if page_owned(s2.active, q as u32) {
                let a = choose|a: int| 0 <= a < s2.active.len() && #[trigger] s2.active[a].pages.contains(q as u32);
                if a != i {
                    assert(s2.active[a] == s.active[a]);
                    assert(page_owned(s.active, q as u32));
                } else {
                    assert(old_seq.pages.contains(q as u32));
                    assert(page_owned(s.active, q as u32));
                }
            }
        }
    }
    assert(pages_disjoint(s2.active)) by {
        assert forall|a: int| 0 <= a < s2.active.len() implies (#[trigger] s2.active[a]).pages.no_duplicates() by {
            if a != i {
                assert(s2.active[a] == s.active[a]);
            } else {
                assert(old_seq.pages.no_duplicates());
                assert forall|k1: int, k2: int|
                    0 <= k1 < new_seq.pages.len() && 0 <= k2 < new_seq.pages.len() && k1
                        != k2 implies new_seq.pages[k1] != new_seq.pages[k2] by {
                    if k1 < old_seq.pages.len() && k2 < old_seq.pages.len() {
                    } else if k1 < old_seq.pages.len() {
                        assert(old_seq.pages.contains(old_seq.pages[k1]));
                    } else if k2 < old_seq.pages.len() {
                        assert(old_seq.pages.contains(old_seq.pages[k2]));
                    }
                }
            }
        }
        assert forall|a1: int, a2: int, q: u32|
            0 <= a1 < s2.active.len() && 0 <= a2 < s2.active.len() && a1 != a2
                && #[trigger] s2.active[a1].pages.contains(q) implies !#[trigger] s2.active[a2].pages.contains(q) by {
            if a1 != i && a2 != i {
                assert(s2.active[a1] == s.active[a1]);
                assert(s2.active[a2] == s.active[a2]);
            } else if a1 == i {
                assert(s2.active[a2] == s.active[a2]);
                if q == p as u32 {
                } else {
                    assert(old_seq.pages.contains(q));
                }
            } else {
                assert(s2.active[a1] == s.active[a1]);
                if s2.active[a2].pages.contains(q) && q != p as u32 {
                    assert(old_seq.pages.contains(q));
                }
            }
        }
    }
    assert forall|a: int| 0 <= a < s2.active.len() implies (#[trigger] s2.active[a]).block_table
        == s2.active[a].pages by {
        if a != i {
            assert(s2.active[a] == s.active[a]);
        }
    }
}

/// Every step of the post-step cleanup keeps the invariant.
proof fn lemma_cleanup_from_keeps_inv(s: SchedModel, i: int, finished: Seq<u32>)
    requires
        sched_inv(s),
    ensures
        sched_inv(cleanup_from(s, i, finished).0),
    decreases s.active.len() - i,
{
    if 0 <= i < s.active.len() {
        let seq0 = s.active[i];
        let seq = if seq0.generated >= seq0.max_new {
            SeqModel { status: SequenceStatus::Finished, ..seq0 }
        } else {
            seq0
        };
        if seq.status == SequenceStatus::Finished {
            lemma_remove_release(s, i);
            let s2 = SchedModel {
                active: s.active.remove(i),
                free: release_pages(s.free, seq.pages),
                ..s
            };
            assert(sched_inv(s2));
            lemma_cleanup_from_keeps_inv(s2, i, finished.push(seq.seq_id));
        } else if pages_needed(seq.num_tokens + 1) > seq.pages.len() {
            match first_free(s.free) {
                Some(p) => {
                    assert(is_first_free(s.free, choose|p: int| is_first_free(s.free, p)));
                    lemma_grow_step(s, i, p);
                    lemma_cleanup_from_keeps_inv(
                        SchedModel {
                            active: s.active.update(
                                i,
                                SeqModel {
                                    pages: seq.pages.push(p as u32),
                                    block_table: seq.block_table.push(p as u32),
                                    ..seq
                                },
                            ),
                            free: s.free.update(p, false),
                            ..s
                        },
                        i + 1,
                        finished,
                    );
                },
                None => {
                    lemma_remove_release(s, i);
                    let w = with_pages(seq, Seq::empty(), SequenceStatus::Waiting);
                    let s2 = SchedModel {
                        active: s.active.remove(i),
                        waiting: seq![w] + s.waiting,
                        free: release_pages(s.free, seq.pages),
                        ..s
                    };
                    assert forall|j: int| 0 <= j < s2.waiting.len() implies (#[trigger] s2.waiting[j]).pages.len()
                        == 0 && s2.waiting[j].block_table.len() == 0 && s2.waiting[j].status
                        == SequenceStatus::Waiting by {
                        if j > 0 {
                            assert(s2.waiting[j] == s.waiting[j - 1]);
                        }
                    }
                    assert(sched_inv(s2));
                    lemma_cleanup_from_keeps_inv(s2, i, finished);
                },
            }
        } else {
            lemma_cleanup_from_keeps_inv(s, i + 1, finished);
        }
    }
}

/// The post-step cleanup keeps the invariant.
pub proof fn law_cleanup_keeps_inv(s: SchedModel)
    requires
        sched_inv(s),
    ensures
        sched_inv(cleanup_from(s, 0, Seq::empty()).0),
{
    lemma_cleanup_from_keeps_inv(s, 0, Seq::empty());
}

/// The sequence's pages hold its next token.
pub open spec fn covers_next(q: SeqModel) -> bool {
    q.pages.len() >= pages_needed(q.num_tokens + 1)
}

/// The sequence is done: marked finished, or out of new tokens.
pub open spec fn seq_done(q: SeqModel) -> bool {
    q.status == SequenceStatus::Finished || q.generated >= q.max_new
}

proof fn lemma_cleanup_from_serves(s: SchedModel, i: int, finished: Seq<u32>)
    requires
        sched_inv(s),
        0 <= i <= s.active.len(),
        forall|j: int| 0 <= j < i ==> covers_next(#[trigger] s.active[j]) && !seq_done(s.active[j]),
        forall|j: int|
            i <= j < s.active.len() ==> (#[trigger] s.active[j]).pages.len() + 1 >= pages_needed(
                s.active[j].num_tokens + 1,
            ),
    ensures
        ({
            let r = cleanup_from(s, i, finished).0;
            &&& sched_inv(r)
            &&& r.free.len() == s.free.len()
            &&& forall|j: int| 0 <= j < r.active.len() ==> covers_next(#[trigger] r.active[j]) && !seq_done(r.active[j])
        }),
    decreases s.active.len() - i,
{
    if i < s.active.len() {
        let seq0 = s.active[i];
        let seq = if seq0.generated >= seq0.max_new {
            SeqModel { status: SequenceStatus::Finished, ..seq0 }
        } else {
            seq0
        };
        let n = s.active.len();
        if seq.status == SequenceStatus::Finished {
            lemma_remove_release(s, i);
            let s2 = SchedModel {
                active: s.active.remove(i),
                free: release_pages(s.free, seq.pages),
                ..s
            };
            assert(sched_inv(s2));
            assert forall|j: int| 0 <= j < i implies covers_next(#[trigger] s2.active[j]) && !seq_done(s2.active[j]) by {
                assert(s2.active[j] == s.active[j]);
            }
            assert forall|j: int| i <= j < s2.active.len() implies (#[trigger] s2.active[j]).pages.len() + 1
                >= pages_needed(s2.active[j].num_tokens + 1) by {
                assert(s2.active[j] == s.active[j + 1]);
            }
            lemma_cleanup_from_serves(s2, i, finished.push(seq.seq_id));
        } else if pages_needed(seq.num_tokens + 1) > seq.pages.len() {
            match first_free(s.free) {
                Some(p) => {
                    assert(is_first_free(s.free, choose|p: int| is_first_free(s.free, p)));
                    lemma_grow_step(s, i, p);
                    let grown = SeqModel {
                        pages: seq.pages.push(p as u32),
                        block_table: seq.block_table.push(p as u32),
                        ..seq
                    };
                    let s2 = SchedModel {
                        active: s.active.update(i, grown),
                        free: s.free.update(p, false),
                        ..s
                    };
                    assert forall|j: int| 0 <= j < i + 1 implies covers_next(#[trigger] s2.active[j]) && !seq_done(s2.active[j]) by {
                        if j < i {
                            assert(s2.active[j] == s.active[j]);
                        }
                    }
                    assert forall|j: int| i + 1 <= j < s2.active.len() implies (#[trigger] s2.active[j]).pages.len() + 1
                        >= pages_needed(s2.active[j].num_tokens + 1) by {
                        assert(s2.active[j] == s.active[j]);
                    }
                    lemma_cleanup_from_serves(s2, i + 1, finished);
                },
                None => {
                    lemma_remove_release(s, i);
                    let w = with_pages(seq, Seq::empty(), SequenceStatus::Waiting);
                    let s2 = SchedModel {
                        active: s.active.remove(i),
                        waiting: seq![w] + s.waiting,
                        free: release_pages(s.free, seq.pages),
                        ..s
                    };
                    assert forall|j: int| 0 <= j < s2.waiting.len() implies (#[trigger] s2.waiting[j]).pages.len()
                        == 0 && s2.waiting[j].block_table.len() == 0 && s2.waiting[j].status
                        == SequenceStatus::Waiting by {
                        if j > 0 {
                            assert(s2.waiting[j] == s.waiting[j - 1]);
                        }
                    }
                    assert(sched_inv(s2));
                    assert forall|j: int| 0 <= j < i implies covers_next(#[trigger] s2.active[j]) && !seq_done(s2.active[j]) by {
                        assert(s2.active[j] == s.active[j]);
                    }
                    assert forall|j: int| i <= j < s2.active.len() implies (#[trigger] s2.active[j]).pages.len() + 1
                        >= pages_needed(s2.active[j].num_tokens + 1) by {
                        assert(s2.active[j] == s.active[j + 1]);
                    }
                    lemma_cleanup_from_serves(s2, i, finished);
                },
            }
        } else {
            lemma_cleanup_from_serves(s, i + 1, finished);
        }
    }
}

/// When every sequence of the batch is at most one page short of its next
/// token, the post-step cleanup keeps the ownership invariant over the same
/// pool, so that every page is either free or held by exactly one sequence
/// of the batch, and leaves every sequence of the batch unfinished with a
/// page for its next token.
pub proof fn law_cleanup_serves_batch(s: SchedModel)
    requires
        sched_inv(s),
        forall|j: int|
            0 <= j < s.active.len() ==> (#[trigger] s.active[j]).pages.len() + 1 >= pages_needed(
                s.active[j].num_tokens + 1,
            ),
    ensures
        ({
            let r = cleanup_from(s, 0, Seq::empty()).0;
            &&& sched_inv(r)
            &&& r.free.len() == s.free.len()
            &&& forall|p: int| 0 <= p < r.free.len() ==> #[trigger] r.free[p] || page_owned(r.active, p as u32)
            &&& forall|j: int| 0 <= j < r.active.len() ==> covers_next(#[trigger] r.active[j]) && !seq_done(r.active[j])
        }),
{
    lemma_cleanup_from_serves(s, 0, Seq::empty());
}

} // verus!

//! No request is lost: the scheduler's operations move sequences between
//! the running batch and the waiting queue, and a cleanup reports every
//! sequence it drops as finished.
use vstd::prelude::*;
use vstd::multiset::Multiset;
use crate::kv_cache::page_pool::first_free;
use crate::scheduler::batching::{
    alloc_pages, cleanup_from, pages_needed, promote_spec, release_pages, with_pages, SchedModel,
    SeqModel, SequenceStatus,
};

verus! {

broadcast use vstd::multiset::group_multiset_axioms;

/// The ids of a list of sequences.
pub open spec fn ids(v: Seq<SeqModel>) -> Seq<u32> {
    v.map_values(|s: SeqModel| s.seq_id)
}

/// The ids of every scheduled sequence: the running batch, then the queue.
pub open spec fn scheduled_ids(s: SchedModel) -> Seq<u32> {
    ids(s.active) + ids(s.waiting)
}

/// Promotion keeps every sequence, in order: the front of the queue moves
/// to the end of the batch.
pub proof fn law_promote_keeps_sequences(s: SchedModel)
    ensures
        scheduled_ids(promote_spec(s)) == scheduled_ids(s),
    decreases s.waiting.len(),
{
    if s.active.len() < s.max_batch && s.waiting.len() > 0 {
        let seq = s.waiting[0];
        if let Some((ps, f)) = alloc_pages(s.free, (pages_needed(seq.num_tokens as int) + 1) as nat) {
            let s2 = SchedModel {
                active: s.active.push(with_pages(seq, ps, SequenceStatus::Running)),
                waiting: s.waiting.drop_first(),
                free: f,
                max_batch: s.max_batch,
            };
            law_promote_keeps_sequences(s2);
            assert(scheduled_ids(s2) =~= scheduled_ids(s));
        }
    }
}

/// One step of a cleanup keeps the scheduled ids plus the reported ones.
proof fn lemma_cleanup_conserves(s: SchedModel, i: int, finished: Seq<u32>)
    requires
        0 <= i,
    ensures
        ({
            let r = cleanup_from(s, i, finished);
            scheduled_ids(r.0).to_multiset().add(r.1.to_multiset()) == scheduled_ids(
                s,
            ).to_multiset().add(finished.to_multiset())
        }),
    decreases s.active.len() - i,
{
    broadcast use vstd::seq_lib::group_to_multiset_ensures;

    if i < s.active.len() {
        let all = scheduled_ids(s);
        let seq0 = s.active[i];
        let seq = if seq0.generated >= seq0.max_new {
            SeqModel { status: SequenceStatus::Finished, ..seq0 }
        } else {
            seq0
        };
        let x = seq.seq_id;
        assert(all[i] == x);
        if seq.status == SequenceStatus::Finished {
            let s2 = SchedModel {
                active: s.active.remove(i),
                free: release_pages(s.free, seq.pages),
                ..s
            };
            assert(scheduled_ids(s2) =~= all.remove(i));
            vstd::seq_lib::to_multiset_remove(all, i);
            vstd::seq_lib::to_multiset_build(finished, x);
            vstd::seq_lib::to_multiset_contains(all, x);
            assert(scheduled_ids(s2).to_multiset().add(finished.push(x).to_multiset())
                =~= all.to_multiset().add(finished.to_multiset()));
            lemma_cleanup_conserves(s2, i, finished.push(x));
        } else if pages_needed(seq.num_tokens + 1) > seq.pages.len() {
            match first_free(s.free) {
                Some(p) => {
                    let s2 = SchedModel {
                        active: s.active.update(
                            i,
                            SeqModel {
                                pages: seq.pages.push(p as u32),
                                block_table: seq.block_table.push(p as u32),
                                ..seq
                            },
                        ),
                        free: s.free.update(p, false),
                        ..s
                    };
                    assert(scheduled_ids(s2) =~= all);
                    lemma_cleanup_conserves(s2, i + 1, finished);
                },
                None => {
                    let back = with_pages(seq, Seq::empty(), SequenceStatus::Waiting);
                    let s2 = SchedModel {
                        active: s.active.remove(i),
                        waiting: seq![back] + s.waiting,
                        free: release_pages(s.free, seq.pages),
                        ..s
                    };
                    let k = s.active.len() - 1;
                    assert(scheduled_ids(s2) =~= all.remove(i).insert(k, x));
                    vstd::seq_lib::to_multiset_remove(all, i);
                    vstd::seq_lib::to_multiset_insert(all.remove(i), k, x);
                    vstd::seq_lib::to_multiset_contains(all, x);
                    assert(scheduled_ids(s2).to_multiset() =~= all.to_multiset());
                    lemma_cleanup_conserves(s2, i, finished);
                },
            }
        } else {
            lemma_cleanup_conserves(s, i + 1, finished);
        }
    }
}

/// A cleanup drops only the sequences it reports finished: the scheduled
/// ids afterwards, together with the reported ids, are the scheduled ids
/// before (as a multiset).
pub proof fn law_cleanup_keeps_sequences(s: SchedModel)
    ensures
        ({
            let r = cleanup_from(s, 0, Seq::empty());
            scheduled_ids(r.0).to_multiset().add(r.1.to_multiset()) == scheduled_ids(s).to_multiset()
        }),
{
    broadcast use vstd::seq_lib::group_to_multiset_ensures;

    lemma_cleanup_conserves(s, 0, Seq::empty());
    assert forall|x: u32| Seq::<u32>::empty().to_multiset().count(x) == 0 by {
        assert(!Seq::<u32>::empty().contains(x));
    }
    assert(Seq::<u32>::empty().to_multiset() =~= Multiset::<u32>::empty());
    assert(scheduled_ids(s).to_multiset().add(Multiset::<u32>::empty()) =~= scheduled_ids(
        s,
    ).to_multiset());
}

} // verus!

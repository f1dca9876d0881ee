//! The engine's bookkeeping around one forward step: what the batch learns
//! from the tokens the step produced, which tokens are handed to the caller,
//! and the cleanup that follows.  The forward pass itself (floating-point
//! linear algebra) runs outside this crate and hands its `(seq_id, token)`
//! pairs to [`apply_step_outputs`].
use vstd::prelude::*;
use crate::scheduler::batching::{
    cleanup_from, pages_in_range, seq_views, SchedModel, SeqModel, Scheduler, SequenceState,
};

verus! {

/// Index of the first running sequence at or after `i` with id `id`.
pub open spec fn find_from(active: Seq<SeqModel>, id: u32, i: int) -> Option<int>
    decreases active.len() - i,
{
    if i < 0 || i >= active.len() {
        None
    } else if active[i].seq_id == id {
        Some(i)
    } else {
        find_from(active, id, i + 1)
    }
}

/// Index of the first running sequence with id `id`.
pub open spec fn find_first(active: Seq<SeqModel>, id: u32) -> Option<int> {
    find_from(active, id, 0)
}

/// A sequence after one step produced `token` for it: during prefill the
/// position advances; afterwards the token is appended and counted.
pub open spec fn advance(s: SeqModel, token: u32) -> SeqModel {
    if (s.num_tokens as int) < s.prompt.len() - 1 {
        SeqModel { num_tokens: (s.num_tokens + 1) as u32, ..s }
    } else {
        SeqModel {
            prompt: s.prompt.push(token),
            num_tokens: (s.num_tokens + 1) as u32,
            generated: (s.generated + 1) as u32,
            ..s
        }
    }
}

/// Advancing `s` does not overflow its counters, and its prompt is not empty.
pub open spec fn can_advance(s: SeqModel) -> bool {
    &&& s.prompt.len() > 0
    &&& s.num_tokens < u32::MAX
    &&& ((s.num_tokens as int) < s.prompt.len() - 1 || s.generated < u32::MAX)
}

/// The batch after one step's output `out`.
pub open spec fn apply_output(active: Seq<SeqModel>, out: (u32, u32)) -> Seq<SeqModel> {
    match find_first(active, out.0) {
        None => active,
        Some(i) => active.update(i, advance(active[i], out.1)),
    }
}

/// The batch after the step's outputs, in order.
pub open spec fn apply_outputs(active: Seq<SeqModel>, outs: Seq<(u32, u32)>) -> Seq<SeqModel>
    decreases outs.len(),
{
    if outs.len() == 0 {
        active
    } else {
        apply_output(apply_outputs(active, outs.drop_last()), outs.last())
    }
}

/// Every output that names a running sequence can advance it.
pub open spec fn outputs_ok(active: Seq<SeqModel>, outs: Seq<(u32, u32)>) -> bool
    decreases outs.len(),
{
    if outs.len() == 0 {
        true
    } else {
        &&& outputs_ok(active, outs.drop_last())
        &&& match find_first(apply_outputs(active, outs.drop_last()), outs.last().0) {
            None => true,
            Some(i) => can_advance(apply_outputs(active, outs.drop_last())[i]),
        }
    }
}

/// An output reaches the caller when its sequence is still running and has
/// generated at least one token (prefill outputs are internal).
pub open spec fn emitted(active: Seq<SeqModel>, out: (u32, u32)) -> bool {
    match find_first(active, out.0) {
        None => false,
        Some(i) => active[i].generated > 0,
    }
}

/// The predicate of the outputs that reach the caller.
pub open spec fn emitted_pred(active: Seq<SeqModel>) -> spec_fn((u32, u32)) -> bool {
    |o: (u32, u32)| emitted(active, o)
}

/// Advancing sequences by outputs changes no sequence's pages.
proof fn lemma_apply_outputs_pages(active: Seq<SeqModel>, outs: Seq<(u32, u32)>)
    ensures
        apply_outputs(active, outs).len() == active.len(),
        forall|i: int|
            0 <= i < active.len() ==> (#[trigger] apply_outputs(active, outs)[i]).pages
                == active[i].pages,
    decreases outs.len(),
{
    if outs.len() > 0 {
        lemma_apply_outputs_pages(active, outs.drop_last());
        let prev = apply_outputs(active, outs.drop_last());
        if let Some(i) = find_first(prev, outs.last().0) {
            lemma_find_from_range(prev, outs.last().0, 0);
        }
    }
}

proof fn lemma_find_from_range(active: Seq<SeqModel>, id: u32, i: int)
    ensures
        find_from(active, id, i) matches Some(j) ==> 0 <= j < active.len() && active[j].seq_id
            == id,
    decreases active.len() - i,
{
    if 0 <= i < active.len() && active[i].seq_id != id {
        lemma_find_from_range(active, id, i + 1);
    }
}

/// Index of the first running sequence with id `id`.
fn find_seq(active: &Vec<SequenceState>, id: u32) -> (r: Option<usize>)
    ensures
        match r {
            Some(i) => find_first(seq_views(active@), id) == Some(i as int) && i < active@.len()
                && active@[i as int].seq_id == id,
            None => find_first(seq_views(active@), id) is None,
        },
{
    proof {
        lemma_find_from_range(seq_views(active@), id, 0);
    }
    let ghost views = seq_views(active@);
    let mut i: usize = 0;
    while i < active.len()
        invariant
            i <= active@.len(),
            views == seq_views(active@),
            find_from(views, id, i as int) == find_first(views, id),
        decreases active@.len() - i,
    {
        assert(views[i as int].seq_id == active@[i as int].seq_id);
        if active[i].seq_id == id {
            return Some(i);
        }
        i += 1;
    }
    None
}

/// Record the tokens a forward step produced, hand back those that reach
/// the caller, then run the batch's post-step cleanup.
pub fn apply_step_outputs(scheduler: &mut Scheduler, outputs: Vec<(u32, u32)>) -> (res: Vec<
    (u32, u32),
>)
    requires
        old(scheduler).page_pool.wf(),
        pages_in_range(old(scheduler)@.active, old(scheduler).page_pool.total_pages as int),
        outputs_ok(old(scheduler)@.active, outputs@),
    ensures
        ({
            let updated = apply_outputs(old(scheduler)@.active, outputs@);
            &&& res@ == outputs@.filter(emitted_pred(updated))
            &&& final(scheduler)@ == cleanup_from(
                SchedModel { active: updated, ..old(scheduler)@ },
                0,
                Seq::empty(),
            ).0
        }),
        final(scheduler).page_pool.wf(),
        final(scheduler).page_pool.total_pages == old(scheduler).page_pool.total_pages,
{
    let n = outputs.len();
    let mut k: usize = 0;
    while k < n
        invariant
            n == outputs@.len(),
            k <= n,
            scheduler.page_pool == old(scheduler).page_pool,
            scheduler.waiting_seqs == old(scheduler).waiting_seqs,
            scheduler.max_batch_size == old(scheduler).max_batch_size,
            seq_views(scheduler.active_seqs@) == apply_outputs(
                old(scheduler)@.active,
                outputs@.take(k as int),
            ),
            outputs_ok(old(scheduler)@.active, outputs@),
        decreases n - k,
    {
        let (seq_id, token) = outputs[k];
        let ghost before = seq_views(scheduler.active_seqs@);
        proof {
            lemma_outputs_ok_prefix(old(scheduler)@.active, outputs@, k as int + 1);
            assert(outputs@.take(k + 1).drop_last() =~= outputs@.take(k as int));
            assert(outputs@.take(k + 1).last() == outputs@[k as int]);
            assert(outputs@[k as int] == (seq_id, token));
            assert(apply_outputs(old(scheduler)@.active, outputs@.take(k + 1)) == apply_output(
                before,
                (seq_id, token),
            ));
            assert(outputs_ok(old(scheduler)@.active, outputs@.take(k + 1)));
            assert(match find_first(before, seq_id) {
                None => true,
                Some(i) => can_advance(before[i]),
            });
        }
        match find_seq(&scheduler.active_seqs, seq_id) {
            Some(i) => {
                proof {
                    lemma_find_from_range(before, seq_id, 0);
                    assert(can_advance(before[i as int]));
                    assert(before[i as int] == scheduler.active_seqs@[i as int]@);
                }
                let mut seq = scheduler.active_seqs.remove(i);
                if (seq.num_tokens as usize) < seq.prompt_tokens.len() - 1 {
                    seq.num_tokens += 1;
                } else {
                    seq.prompt_tokens.push(token);
                    seq.num_tokens += 1;
                    seq.generated_tokens += 1;
                }
                scheduler.active_seqs.insert(i, seq);
                proof {
                    assert(seq_views(scheduler.active_seqs@) =~= before.update(
                        i as int,
                        advance(before[i as int], token),
                    ));
                }
            },
            None => {},
        }
        k += 1;
    }
    assert(outputs@.take(n as int) =~= outputs@);
    let ghost updated = seq_views(scheduler.active_seqs@);
    let mut res: Vec<(u32, u32)> = Vec::new();
    let mut k: usize = 0;
    while k < n
        invariant
            n == outputs@.len(),
            k <= n,
            updated == seq_views(scheduler.active_seqs@),
            res@ == outputs@.take(k as int).filter(emitted_pred(updated)),
        decreases n - k,
    {
        let out = outputs[k];
        proof {
            reveal_with_fuel(Seq::<_>::filter, 1);
            assert(outputs@.take(k + 1).drop_last() =~= outputs@.take(k as int));
            assert(outputs@.take(k + 1).last() == out);
            assert(outputs@.take(k + 1).filter(emitted_pred(updated)) == if emitted(updated, out) {
                outputs@.take(k as int).filter(emitted_pred(updated)).push(out)
            } else {
                outputs@.take(k as int).filter(emitted_pred(updated))
            });
        }
        match find_seq(&scheduler.active_seqs, out.0) {
            Some(i) => {
                assert(updated[i as int] == scheduler.active_seqs@[i as int]@);
                if scheduler.active_seqs[i].generated_tokens > 0 {
                    res.push(out);
                }
            },
            None => {},
        }
        k += 1;
    }
    assert(outputs@.take(n as int) =~= outputs@);
    proof {
        let old_active = old(scheduler)@.active;
        lemma_apply_outputs_pages(old_active, outputs@);
        assert(pages_in_range(scheduler@.active, scheduler.page_pool.total_pages as int)) by {
            assert forall|a: int, j: int|
                0 <= a < scheduler@.active.len() && 0 <= j
                    < scheduler@.active[a].pages.len() implies #[trigger] scheduler@.active[a].pages[j]
                < scheduler.page_pool.total_pages by {
                assert(scheduler@.active[a].pages == old_active[a].pages);
            }
        }
    }
    scheduler.post_step_cleanup();
    res
}

proof fn lemma_outputs_ok_prefix(active: Seq<SeqModel>, outs: Seq<(u32, u32)>, k: int)
    requires
        outputs_ok(active, outs),
        0 <= k <= outs.len(),
    ensures
        outputs_ok(active, outs.take(k)),
    decreases outs.len() - k,
{
    if k < outs.len() {
        lemma_outputs_ok_prefix(active, outs, k + 1);
        assert(outs.take(k + 1).drop_last() =~= outs.take(k));
    } else {
        assert(outs.take(k) =~= outs);
    }
}

} // verus!

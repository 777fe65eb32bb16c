//! What holds of every run of a ranked iterator.

use crate::mdfs::{
    advance_spec, batch_of, fresh_view, lemma_advance_step, unreported, wf_view, MdfsView,
    StepView,
};
use crate::search::pair_docids;
use vstd::prelude::*;

verus! {

/// `states` and `steps` are a run of one iterator: each step is taken from the
/// state before it and leads to the state after it.
pub open spec fn is_trace(states: Seq<MdfsView>, steps: Seq<StepView>) -> bool {
    &&& states.len() == steps.len() + 1
    &&& forall|k: int|
        0 <= k < steps.len() ==> #[trigger] advance_spec(states[k]) == (states[k + 1], steps[k])
}

proof fn lemma_trace_facts(states: Seq<MdfsView>, steps: Seq<StepView>)
    requires
        wf_view(states[0]),
        is_trace(states, steps),
    ensures
        wf_view(states.last()),
        forall|j: int, k: int|
            0 <= j < k < steps.len() ==> #[trigger] batch_of(steps[j]).disjoint(
                #[trigger] batch_of(steps[k]),
            ),
        forall|j: int|
            0 <= j < steps.len() ==> #[trigger] batch_of(steps[j]).disjoint(
                unreported(states.last()),
            ),
        forall|x: u32|
            #[trigger] unreported(states[0]).contains(x) <==> unreported(states.last()).contains(x)
                || exists|j: int| 0 <= j < steps.len() && #[trigger] batch_of(steps[j]).contains(x),
        forall|j: int| 0 <= j < states.len() ==> #[trigger] states[j].mana <= states.last().mana,
        forall|j: int|
            0 <= j < steps.len() && #[trigger] steps[j] is Batch ==> states[j].mana
                < states.last().mana,
    decreases steps.len(),
{
    let m = steps.len() as int;
    if m > 0 {
        let s1 = states.drop_last();
        let t1 = steps.drop_last();
        assert forall|k: int| 0 <= k < t1.len() implies #[trigger] advance_spec(s1[k]) == (
            s1[k + 1],
            t1[k],
        ) by {
            assert(advance_spec(states[k]) == (states[k + 1], steps[k]));
        }
        lemma_trace_facts(s1, t1);
        let v = states[m - 1];
        assert(s1.last() == v);
        lemma_advance_step(v);
        assert(advance_spec(states[m - 1]) == (states[m], steps[m - 1]));
        let b = batch_of(steps[m - 1]);
        assert forall|j: int, k: int| 0 <= j < k < steps.len() implies #[trigger] batch_of(
            steps[j],
        ).disjoint(#[trigger] batch_of(steps[k])) by {
            if k < m - 1 {
                assert(batch_of(t1[j]).disjoint(batch_of(t1[k])));
            } else {
                assert(batch_of(t1[j]).disjoint(unreported(v)));
            }
        }
        assert forall|j: int| 0 <= j < steps.len() implies #[trigger] batch_of(steps[j]).disjoint(
            unreported(states.last()),
        ) by {
            if j < m - 1 {
                assert(batch_of(t1[j]).disjoint(unreported(v)));
            }
        }
        assert forall|x: u32|
            unreported(states.last()).contains(x) || exists|j: int|
                0 <= j < steps.len() && #[trigger] batch_of(steps[j]).contains(x) implies #[trigger] unreported(
            states[0],
        ).contains(x) by {
            if unreported(states.last()).contains(x) {
                assert(unreported(s1[0]).contains(x));
            } else if exists|j: int| 0 <= j < steps.len() && #[trigger] batch_of(steps[j]).contains(
                x,
            ) {
                let j = choose|j: int| 0 <= j < steps.len() && #[trigger] batch_of(steps[j]).contains(
                    x,
                );
                if j < m - 1 {
                    assert(batch_of(t1[j]).contains(x));
                }
                assert(unreported(s1[0]).contains(x));
            }
        }
        assert forall|x: u32| #[trigger]
            unreported(states[0]).contains(x) implies unreported(states.last()).contains(x) || exists|
                j: int,
            | 0 <= j < steps.len() && #[trigger] batch_of(steps[j]).contains(x) by {
            assert(unreported(s1[0]).contains(x));
            if !unreported(v).contains(x) {
                let j = choose|j: int| 0 <= j < t1.len() && #[trigger] batch_of(t1[j]).contains(x);
                assert(batch_of(steps[j]).contains(x));
            } else if b.contains(x) {
                assert(batch_of(steps[m - 1]).contains(x));
            }
        }
        assert forall|j: int| 0 <= j < states.len() implies #[trigger] states[j].mana
            <= states.last().mana by {
            if j < m {
                assert(s1[j].mana <= v.mana);
            }
        }
        assert forall|j: int| 0 <= j < steps.len() && #[trigger] steps[j] is Batch implies states[j].mana
            < states.last().mana by {
            if j < m - 1 {
                assert(t1[j] is Batch);
            }
        }
    }
}

/// No document is handed out twice: the batches of one iterator are pairwise
/// disjoint, and none meets the documents still unreported at the end.
pub proof fn lemma_no_duplicate_batches(states: Seq<MdfsView>, steps: Seq<StepView>)
    requires
        wf_view(states[0]),
        is_trace(states, steps),
    ensures
        forall|j: int, k: int|
            0 <= j < k < steps.len() ==> #[trigger] batch_of(steps[j]).disjoint(
                #[trigger] batch_of(steps[k]),
            ),
        forall|j: int|
            0 <= j < steps.len() ==> #[trigger] batch_of(steps[j]).disjoint(
                unreported(states.last()),
            ),
{
    lemma_trace_facts(states, steps);
}

/// No document is lost: the batches handed out together with the documents
/// still unreported are exactly the documents unreported at the start (for a
/// new iterator, its candidates).
pub proof fn lemma_no_document_lost(states: Seq<MdfsView>, steps: Seq<StepView>)
    requires
        wf_view(states[0]),
        is_trace(states, steps),
    ensures
        forall|x: u32|
            #[trigger] unreported(states[0]).contains(x) <==> unreported(states.last()).contains(x)
                || exists|j: int| 0 <= j < steps.len() && #[trigger] batch_of(steps[j]).contains(x),
{
    lemma_trace_facts(states, steps);
}

/// Batches come in order of increasing mana: a later batch was found at a
/// greater total proximity cost than an earlier one.
pub proof fn lemma_batches_loosen(states: Seq<MdfsView>, steps: Seq<StepView>)
    requires
        wf_view(states[0]),
        is_trace(states, steps),
    ensures
        forall|j: int, k: int|
            0 <= j < k < steps.len() && #[trigger] steps[j] is Batch && #[trigger] steps[k] is Batch
                ==> states[j].mana < states[k].mana,
{
    assert forall|j: int, k: int|
        0 <= j < k < steps.len() && #[trigger] steps[j] is Batch && #[trigger] steps[k] is Batch implies states[j].mana
        < states[k].mana by {
        let s = states.take(k + 1);
        let t = steps.take(k);
        assert forall|i: int| 0 <= i < t.len() implies #[trigger] advance_spec(s[i]) == (
            s[i + 1],
            t[i],
        ) by {
            assert(advance_spec(states[i]) == (states[i + 1], steps[i]));
        }
        lemma_trace_facts(s, t);
        assert(t[j] is Batch);
        assert(s.last() == states[k]);
    }
}

/// With 0 or 1 word slots there is no pair to rank by: a new iterator hands
/// out all its candidates in one batch (none if there are none), and is then
/// exhausted for good.
pub proof fn lemma_single_slot(n: int, cands: Set<u32>)
    requires
        0 <= n <= 1,
    ensures
        advance_spec(fresh_view(n, cands)).1 == if cands == Set::<u32>::empty() {
            StepView::Exhausted
        } else {
            StepView::Batch(cands)
        },
        advance_spec(advance_spec(fresh_view(n, cands)).0) == (
            advance_spec(fresh_view(n, cands)).0,
            StepView::Exhausted,
        ),
{
}

/// A pair at proximity 8 contributes all the candidates, whatever the cache holds.
pub proof fn lemma_unconstrained_pair(cache: Seq<Option<Set<u32>>>, cands: Set<u32>, i: int)
    ensures
        pair_docids(cache, cands, i, 8) == Some(cands),
{
}

} // verus!

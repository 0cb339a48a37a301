use crate::dyn_queue::{DynQueue, Step};
use crate::queue::Queue;
use vstd::multiset::Multiset;
use vstd::prelude::*;

verus! {

/// The sum, over the queues `qs`, of the multiset that `part` picks from each.
pub open spec fn sum_of<T, U: Queue<T>>(
    qs: Seq<DynQueue<T, U>>,
    part: spec_fn(DynQueue<T, U>) -> Multiset<T>,
) -> Multiset<T>
    decreases qs.len(),
{
    if qs.len() == 0 {
        Multiset::empty()
    } else {
        sum_of(qs.drop_last(), part).add(part(qs.last()))
    }
}

/// Picks from a queue the items it started with.
pub open spec fn initial_of<T, U: Queue<T>>() -> spec_fn(DynQueue<T, U>) -> Multiset<T> {
    |q: DynQueue<T, U>| q.initial()
}

/// Picks from a queue the items added to it through handles.
pub open spec fn added_of<T, U: Queue<T>>() -> spec_fn(DynQueue<T, U>) -> Multiset<T> {
    |q: DynQueue<T, U>| q.added()
}

/// Picks from a queue the items it handed out.
pub open spec fn delivered_of<T, U: Queue<T>>() -> spec_fn(DynQueue<T, U>) -> Multiset<T> {
    |q: DynQueue<T, U>| q.delivered()
}

/// Picks from a queue the items it moved out by splitting.
pub open spec fn given_of<T, U: Queue<T>>() -> spec_fn(DynQueue<T, U>) -> Multiset<T> {
    |q: DynQueue<T, U>| q.given()
}

/// Whether a queue has been drained to completion: no item is held and no
/// handle is outstanding.
pub open spec fn drained<T, U: Queue<T>>(q: DynQueue<T, U>) -> bool {
    q.items().len() == 0 && q.outstanding() == 0
}

proof fn lemma_drained_sums<T, U: Queue<T>>(qs: Seq<DynQueue<T, U>>)
    requires
        forall|i: int| 0 <= i < qs.len() ==> (#[trigger] qs[i]).wf() && drained(qs[i]),
    ensures
        sum_of(qs, initial_of::<T, U>()).add(
            sum_of(qs, added_of::<T, U>()),
        ) == sum_of(qs, delivered_of::<T, U>()).add(
            sum_of(qs, given_of::<T, U>()),
        ),
    decreases qs.len(),
{
    broadcast use vstd::seq_lib::group_to_multiset_ensures;

    if qs.len() > 0 {
        let rest = qs.drop_last();
        let q = qs.last();
        assert(forall|i: int| 0 <= i < rest.len() ==> rest[i] == qs[i]);
        assert(forall|i: int|
            0 <= i < rest.len() ==> (#[trigger] rest[i]).wf() && drained(rest[i]));
        lemma_drained_sums(rest);
        let ir = sum_of(rest, initial_of::<T, U>());
        let rr = sum_of(rest, added_of::<T, U>());
        let dr = sum_of(rest, delivered_of::<T, U>());
        let gr = sum_of(rest, given_of::<T, U>());
        assert(qs[qs.len() - 1] == q);
        assert(q.wf() && drained(q));
        assert(q.items().to_multiset() =~= Multiset::empty());
        assert(q.initial().add(q.added()) =~= q.delivered().add(q.given()));
        let lhs = sum_of(qs, initial_of::<T, U>()).add(sum_of(qs, added_of::<T, U>()));
        let rhs = sum_of(qs, delivered_of::<T, U>()).add(sum_of(qs, given_of::<T, U>()));
        assert(sum_of(qs, initial_of::<T, U>()) == ir.add(q.initial()));
        assert(sum_of(qs, added_of::<T, U>()) == rr.add(q.added()));
        assert(sum_of(qs, delivered_of::<T, U>()) == dr.add(q.delivered()));
        assert(sum_of(qs, given_of::<T, U>()) == gr.add(q.given()));
        assert forall|v: T| #[trigger] lhs.count(v) == rhs.count(v) by {
            assert(ir.add(rr).count(v) == dr.add(gr).count(v));
            assert(q.initial().add(q.added()).count(v) == q.delivered().add(q.given()).count(
                v,
            ));
        }
        assert(lhs =~= rhs);
    } else {
        assert(sum_of(qs, initial_of::<T, U>()).add(
            sum_of(qs, added_of::<T, U>()),
        ) =~= sum_of(qs, delivered_of::<T, U>()).add(
            sum_of(qs, given_of::<T, U>()),
        ));
    }
}

/// Draining loses and duplicates nothing, however often the queue was split.
///
/// `root` is a queue and `parts` the queues split off from it, directly or
/// from one another, so that the items every one of them moved out are
/// exactly the items the parts started with. Once all of them are drained to
/// completion, the items handed out are exactly the items `root` started with
/// together with every item added to any of them through a handle.
pub proof fn lemma_drained_family<T, U: Queue<T>>(
    root: DynQueue<T, U>,
    parts: Seq<DynQueue<T, U>>,
)
    requires
        root.wf(),
        drained(root),
        forall|i: int| 0 <= i < parts.len() ==> (#[trigger] parts[i]).wf() && drained(parts[i]),
        root.given().add(sum_of(parts, given_of::<T, U>())) == sum_of(
            parts,
            initial_of::<T, U>(),
        ),
    ensures
        root.delivered().add(sum_of(parts, delivered_of::<T, U>())) == root.initial().add(
            root.added(),
        ).add(sum_of(parts, added_of::<T, U>())),
{
    broadcast use vstd::seq_lib::group_to_multiset_ensures;

    lemma_drained_sums(parts);
    let ip = sum_of(parts, initial_of::<T, U>());
    let rp = sum_of(parts, added_of::<T, U>());
    let dp = sum_of(parts, delivered_of::<T, U>());
    let gp = sum_of(parts, given_of::<T, U>());
    assert(root.items().to_multiset() =~= Multiset::empty());
    assert(root.initial().add(root.added()) =~= root.delivered().add(root.given()));
    let lhs = root.delivered().add(dp);
    let rhs = root.initial().add(root.added()).add(rp);
    assert forall|v: T| #[trigger] lhs.count(v) == rhs.count(v) by {
        assert(ip.add(rp).count(v) == dp.add(gp).count(v));
        assert(root.initial().add(root.added()).count(v) == root.delivered().add(
            root.given(),
        ).count(v));
        assert(root.given().add(gp).count(v) == ip.count(v));
    }
    assert(lhs =~= rhs);
}

/// One fold over a queue loses and duplicates nothing.
///
/// `start` is the queue when the fold begins and `end` the same queue, not
/// split meanwhile, once the fold has drained it to completion. The items
/// handed out during the fold are exactly those held at `start` together
/// with those added to the queue through handles during the fold.
pub proof fn lemma_fold_delivers_all<T, U: Queue<T>>(start: DynQueue<T, U>, end: DynQueue<T, U>)
    requires
        start.wf(),
        end.wf(),
        end.id() == start.id(),
        end.initial() == start.initial(),
        end.given() == start.given(),
        drained(end),
    ensures
        end.delivered().add(start.added()) == start.delivered().add(
            start.items().to_multiset(),
        ).add(end.added()),
{
    broadcast use vstd::seq_lib::group_to_multiset_ensures;

    assert(end.items().to_multiset() =~= Multiset::empty());
    let lhs = end.delivered().add(start.added());
    let rhs = start.delivered().add(start.items().to_multiset()).add(end.added());
    assert forall|v: T| #[trigger] lhs.count(v) == rhs.count(v) by {
        assert(start.initial().add(start.added()).count(v) == start.delivered().add(
            start.items().to_multiset(),
        ).add(start.given()).count(v));
        assert(end.initial().add(end.added()).count(v) == end.delivered().add(
            end.items().to_multiset(),
        ).add(end.given()).count(v));
    }
    assert(lhs =~= rhs);
}

/// An item added through a handle is handed out by the time the queue is
/// drained.
///
/// `q` is the queue just after `job` was added to it, and `end` the same
/// queue, not split meanwhile, once drained to completion; the items added
/// through handles in between are at least those added up to `q`. Then `end`
/// has handed out `job` once more than `q` had.
pub proof fn lemma_enqueued_is_delivered<T, U: Queue<T>>(
    q: DynQueue<T, U>,
    end: DynQueue<T, U>,
    job: T,
)
    requires
        q.wf(),
        end.wf(),
        q.items().len() > 0,
        q.items().last() == job,
        end.id() == q.id(),
        end.initial() == q.initial(),
        end.given() == q.given(),
        q.added().subset_of(end.added()),
        drained(end),
    ensures
        end.delivered().count(job) >= q.delivered().count(job) + 1,
{
    broadcast use vstd::seq_lib::group_to_multiset_ensures;

    lemma_fold_delivers_all(q, end);
    assert(q.items().to_multiset().count(job) > 0) by {
        assert(q.items().contains(job)) by {
            assert(q.items()[q.items().len() - 1] == job);
        }
    }
    assert(end.delivered().add(q.added()).count(job) == q.delivered().add(
        q.items().to_multiset(),
    ).add(end.added()).count(job));
    assert(q.added().count(job) <= end.added().count(job));
}

/// Once a step has found the queue empty with no handle outstanding, every
/// later step finds the same: draining stays over and no item comes back.
///
/// `states[i + 1]` is the queue after the step `steps[i]` taken on
/// `states[i]` for a consumer that still takes items.
pub proof fn lemma_no_resurrection<T, U: Queue<T>>(
    states: Seq<DynQueue<T, U>>,
    steps: Seq<Step<T>>,
)
    requires
        states.len() == steps.len() + 1,
        steps.len() > 0,
        steps[0] is Done,
        forall|i: int|
            0 <= i < steps.len() ==> DynQueue::<T, U>::step_rel(
                #[trigger] states[i],
                states[i + 1],
                false,
                steps[i],
            ),
    ensures
        forall|i: int| 0 <= i < steps.len() ==> #[trigger] steps[i] is Done,
        forall|i: int| 0 <= i < states.len() ==> drained(#[trigger] states[i]),
{
    assert forall|i: int| 0 <= i < states.len() implies drained(#[trigger] states[i]) by {
        lemma_stays_drained(states, steps, i);
    }
    assert forall|i: int| 0 <= i < steps.len() implies #[trigger] steps[i] is Done by {
        lemma_stays_drained(states, steps, i);
        assert(DynQueue::<T, U>::step_rel(states[i], states[i + 1], false, steps[i]));
    }
}

proof fn lemma_stays_drained<T, U: Queue<T>>(
    states: Seq<DynQueue<T, U>>,
    steps: Seq<Step<T>>,
    i: int,
)
    requires
        states.len() == steps.len() + 1,
        steps.len() > 0,
        steps[0] is Done,
        forall|i: int|
            0 <= i < steps.len() ==> DynQueue::<T, U>::step_rel(
                #[trigger] states[i],
                states[i + 1],
                false,
                steps[i],
            ),
        0 <= i < states.len(),
    ensures
        drained(states[i]),
    decreases i,
{
    if i > 0 {
        lemma_stays_drained(states, steps, i - 1);
        assert(DynQueue::<T, U>::step_rel(states[i - 1], states[i], false, steps[i - 1]));
    } else {
        assert(DynQueue::<T, U>::step_rel(states[0], states[1], false, steps[0]));
    }
}

} // verus!

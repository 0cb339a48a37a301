use crate::queue::{
    after_pop, lemma_pop_keeps_items, lemma_split_off_partition, next_index, split_kept,
    split_taken, Queue,
};
use crossbeam_queue::SegQueue;
use std::collections::VecDeque;
use std::marker::PhantomData;
use vstd::multiset::Multiset;
use vstd::prelude::*;

verus! {

/// What a draining worker does when its queue runs dry while handles it gave
/// out are still outstanding.
#[derive(PartialEq, Eq, Structural, Clone, Copy, Debug)]
pub enum Liveness {
    /// A handle must be released before the item it came with is done; one
    /// still outstanding at that point is a broken contract.
    Strict,
    /// Wait for outstanding handles, which may still add work, and look again.
    Retry,
}

/// Lets the code that processes one item add new items to the queue the item
/// came from.
pub struct DynQueueHandle<T> {
    owner: Ghost<Seq<nat>>,
    item: PhantomData<T>,
}

impl<T> DynQueueHandle<T> {
    /// The identity of the queue this handle belongs to.
    pub closed spec fn owner(&self) -> Seq<nat> {
        self.owner@
    }

    fn for_queue(owner: Ghost<Seq<nat>>) -> (r: Self)
        ensures
            r.owner() == owner@,
    {
        DynQueueHandle { owner, item: PhantomData }
    }

    /// Adds `job` as the newest item of `q`, the queue this handle belongs to
    /// and is outstanding on.
    pub fn enqueue<U: Queue<T>>(&self, q: &mut DynQueue<T, U>, job: T)
        requires
            old(q).wf(),
            old(q).outstanding() > 0,
            self.owner() == old(q).id(),
        ensures
            final(q).wf(),
            final(q).items() == old(q).items().push(job),
            final(q).added() == old(q).added().insert(job),
            final(q).outstanding() == old(q).outstanding(),
            final(q).liveness() == old(q).liveness(),
            final(q).initial() == old(q).initial(),
            final(q).delivered() == old(q).delivered(),
            final(q).given() == old(q).given(),
            final(q).id() == old(q).id(),
            final(q).splits() == old(q).splits(),
    {
        broadcast use vstd::seq_lib::group_to_multiset_ensures;

        let ghost prev_items = q.queue.items();
        let ghost prev_added = q.added@;
        q.queue.push(job);
        proof {
            q.added@ = q.added@.insert(job);
            assert(q.initial().add(q.added()) =~= q.initial().add(prev_added).insert(job));
            assert(q.delivered().add(q.items().to_multiset()).add(q.given()) =~= q.delivered().add(
                prev_items.to_multiset(),
            ).add(q.given()).insert(job));
        }
    }
}

/// What a draining worker is to do next.
pub enum Step<T> {
    /// Hand this item, with a handle on its queue, to the consumer.
    Deliver(DynQueueHandle<T>, T),
    /// The queue is empty but handles are outstanding: look again shortly.
    Wait,
    /// Draining is over.
    Done,
    /// The queue is empty while a handle is outstanding under strict liveness:
    /// a handle has escaped the code it was given to.
    StaleHandle,
}

/// A queue shared by a draining worker and the handles it gives out.
///
/// Besides the items it counts the handles given out and not yet released,
/// and it keeps, as ghost state, the account of every item: those it started
/// with or that were added through handles are exactly those handed
/// out, those still held and those moved out by splitting.
///
/// Each queue also has a ghost identity, the path of splits that led to it
/// from the queue it descends from, so that a handle can only add items to,
/// and be released into, the queue that gave it out.
pub struct DynQueue<T, U: Queue<T>> {
    queue: U,
    outstanding: usize,
    liveness: Liveness,
    initial: Ghost<Multiset<T>>,
    added: Ghost<Multiset<T>>,
    delivered: Ghost<Multiset<T>>,
    given: Ghost<Multiset<T>>,
    id: Ghost<Seq<nat>>,
    splits: Ghost<nat>,
}

impl<T, U: Queue<T>> DynQueue<T, U> {
    /// The items held, oldest first.
    pub closed spec fn items(&self) -> Seq<T> {
        self.queue.items()
    }

    /// The number of handles given out and not yet released.
    pub closed spec fn outstanding(&self) -> nat {
        self.outstanding as nat
    }

    /// The liveness rule that this queue drains under.
    pub closed spec fn liveness(&self) -> Liveness {
        self.liveness
    }

    /// The items the queue was made with.
    pub closed spec fn initial(&self) -> Multiset<T> {
        self.initial@
    }

    /// The items added through handles.
    pub closed spec fn added(&self) -> Multiset<T> {
        self.added@
    }

    /// The items handed out to the consumer.
    pub closed spec fn delivered(&self) -> Multiset<T> {
        self.delivered@
    }

    /// The items moved out into queues split off from this one.
    pub closed spec fn given(&self) -> Multiset<T> {
        self.given@
    }

    /// The identity of this queue: the queue it descends from has the empty
    /// path, and the queue split off as the `i`-th split of a queue with
    /// identity `p` has identity `p.push(i)`.
    pub closed spec fn id(&self) -> Seq<nat> {
        self.id@
    }

    /// How many queues were split off from this one.
    pub closed spec fn splits(&self) -> nat {
        self.splits@
    }

    /// Every item that entered the queue is still held, was handed out, or was
    /// moved out by a split: once, and only once.
    pub open spec fn wf(&self) -> bool {
        self.initial().add(self.added()) == self.delivered().add(
            self.items().to_multiset(),
        ).add(self.given())
    }

    /// Both queues hold the same items and the same account.
    pub open spec fn same_state(&self, other: &Self) -> bool {
        &&& self.items() == other.items()
        &&& self.outstanding() == other.outstanding()
        &&& self.liveness() == other.liveness()
        &&& self.initial() == other.initial()
        &&& self.added() == other.added()
        &&& self.delivered() == other.delivered()
        &&& self.given() == other.given()
        &&& self.id() == other.id()
        &&& self.splits() == other.splits()
    }

    /// A queue just made from `items`: nothing handed out, added or moved
    /// out yet.
    pub open spec fn is_fresh(&self, items: Seq<T>, liveness: Liveness) -> bool {
        &&& self.wf()
        &&& self.items() == items
        &&& self.outstanding() == 0
        &&& self.liveness() == liveness
        &&& self.initial() == items.to_multiset()
        &&& self.added() == Multiset::<T>::empty()
        &&& self.delivered() == Multiset::<T>::empty()
        &&& self.given() == Multiset::<T>::empty()
        &&& self.splits() == 0
    }

    /// A queue of the items of `queue`, drained under strict liveness.
    pub fn new(queue: U) -> (r: Self)
        ensures
            r.is_fresh(queue.items(), Liveness::Strict),
            r.id() == Seq::<nat>::empty(),
    {
        Self::with_liveness(queue, Liveness::Strict)
    }

    /// A queue of the items of `queue`, drained under `liveness`.
    pub fn with_liveness(queue: U, liveness: Liveness) -> (r: Self)
        ensures
            r.is_fresh(queue.items(), liveness),
            r.id() == Seq::<nat>::empty(),
    {
        Self::with_identity(queue, liveness, Ghost(Seq::empty()))
    }

    fn with_identity(queue: U, liveness: Liveness, id: Ghost<Seq<nat>>) -> (r: Self)
        ensures
            r.is_fresh(queue.items(), liveness),
            r.id() == id@,
    {
        let ghost start = queue.items().to_multiset();
        let r = DynQueue {
            queue,
            outstanding: 0,
            liveness,
            initial: Ghost(start),
            added: Ghost(Multiset::empty()),
            delivered: Ghost(Multiset::empty()),
            given: Ghost(Multiset::empty()),
            id,
            splits: Ghost(0),
        };
        proof {
            assert(r.initial().add(r.added()) =~= r.delivered().add(
                r.items().to_multiset(),
            ).add(r.given()));
        }
        r
    }

    /// How one step of draining relates the queue `before` and `after` it to
    /// the step `r` taken, when the consumer is `full` or not.
    pub open spec fn step_rel(before: Self, after: Self, full: bool, r: Step<T>) -> bool {
        match r {
            Step::Deliver(h, v) => {
                &&& !full
                &&& before.items().len() > 0
                &&& v == before.items()[next_index(before.items().len() as int, U::fifo())]
                &&& h.owner() == before.id()
                &&& after.items() == after_pop(before.items(), U::fifo())
                &&& after.outstanding() == before.outstanding() + 1
                &&& after.delivered() == before.delivered().insert(v)
                &&& after.liveness() == before.liveness()
                &&& after.initial() == before.initial()
                &&& after.added() == before.added()
                &&& after.given() == before.given()
                &&& after.id() == before.id()
                &&& after.splits() == before.splits()
            },
            Step::Done => {
                &&& full || (before.items().len() == 0 && before.outstanding() == 0)
                &&& after.same_state(&before)
            },
            Step::Wait => {
                &&& !full
                &&& before.items().len() == 0
                &&& before.outstanding() > 0
                &&& before.liveness() == Liveness::Retry
                &&& after.same_state(&before)
            },
            Step::StaleHandle => {
                &&& !full
                &&& before.items().len() == 0
                &&& before.outstanding() > 0
                &&& before.liveness() == Liveness::Strict
                &&& after.same_state(&before)
            },
        }
    }

    /// Decides the next move of the worker draining this queue. `full` says
    /// that the consumer asked for no more items.
    ///
    /// A full consumer ends the draining and leaves the items where they are.
    /// Otherwise the next item is popped and handed out with a new handle. On
    /// an empty queue the draining is over once no handle is outstanding;
    /// while one is, strict liveness reports a stale handle and retry
    /// liveness asks to look again.
    pub fn next_step(&mut self, full: bool) -> (r: Step<T>)
        requires
            old(self).wf(),
            !full ==> old(self).outstanding() < usize::MAX,
        ensures
            final(self).wf(),
            Self::step_rel(*old(self), *final(self), full, r),
    {
        if full {
            return Step::Done;
        }
        let ghost before = self.queue.items();
        match self.queue.pop() {
            Some(v) => {
                proof {
                    lemma_pop_keeps_items(before, U::fifo());
                    self.delivered@ = self.delivered@.insert(v);
                    assert(self.delivered().add(self.items().to_multiset()) =~= old(
                        self,
                    ).delivered().add(old(self).items().to_multiset()));
                }
                self.outstanding = self.outstanding + 1;
                Step::Deliver(DynQueueHandle::for_queue(Ghost(self.id@)), v)
            },
            None => {
                if self.outstanding == 0 {
                    Step::Done
                } else {
                    match self.liveness {
                        Liveness::Strict => Step::StaleHandle,
                        Liveness::Retry => Step::Wait,
                    }
                }
            },
        }
    }

    /// Takes back a handle that this queue gave out with an item: one handle
    /// fewer is outstanding.
    pub fn release(&mut self, h: DynQueueHandle<T>)
        requires
            old(self).wf(),
            old(self).outstanding() > 0,
            h.owner() == old(self).id(),
        ensures
            final(self).wf(),
            final(self).items() == old(self).items(),
            final(self).outstanding() == old(self).outstanding() - 1,
            final(self).added() == old(self).added(),
            final(self).liveness() == old(self).liveness(),
            final(self).initial() == old(self).initial(),
            final(self).delivered() == old(self).delivered(),
            final(self).given() == old(self).given(),
            final(self).id() == old(self).id(),
            final(self).splits() == old(self).splits(),
    {
        self.outstanding = self.outstanding - 1;
    }

    /// Splits off half of the items, rounded down, into a new queue of the
    /// same kind and liveness, when at least two are held; those are the items
    /// at the end that the queue splits from. With fewer than two nothing
    /// changes and no queue is returned.
    pub fn split(&mut self) -> (r: Option<Self>)
        requires
            old(self).wf(),
        ensures
            final(self).wf(),
            old(self).items().len() < 2 ==> r is None && *final(self) == *old(self),
            old(self).items().len() >= 2 ==> {
                let n = (old(self).items().len() / 2) as nat;
                &&& final(self).items() == split_kept(old(self).items(), n, U::split_from_back())
                &&& final(self).given() == old(self).given().add(
                    split_taken(old(self).items(), n, U::split_from_back()).to_multiset(),
                )
                &&& final(self).outstanding() == old(self).outstanding()
                &&& final(self).liveness() == old(self).liveness()
                &&& final(self).initial() == old(self).initial()
                &&& final(self).added() == old(self).added()
                &&& final(self).delivered() == old(self).delivered()
                &&& final(self).id() == old(self).id()
                &&& final(self).splits() == old(self).splits() + 1
                &&& r matches Some(q) && q.is_fresh(
                    split_taken(old(self).items(), n, U::split_from_back()),
                    old(self).liveness(),
                ) && q.id() == old(self).id().push(old(self).splits())
            },
    {
        let len = self.queue.len();
        if len >= 2 {
            let ghost before = self.queue.items();
            let taken = self.queue.split_off(len / 2);
            proof {
                lemma_split_off_partition(before, (len / 2) as nat, U::split_from_back());
                self.given@ = self.given@.add(taken.items().to_multiset());
                assert(self.initial().add(self.added()) =~= self.delivered().add(
                    self.items().to_multiset(),
                ).add(self.given()));
            }
            let ghost child = self.id@.push(self.splits@);
            proof {
                self.splits@ = self.splits@ + 1;
            }
            Some(DynQueue::with_identity(taken, self.liveness, Ghost(child)))
        } else {
            None
        }
    }

    /// The number of items held.
    pub fn len(&self) -> (r: usize)
        ensures
            r == self.items().len(),
    {
        self.queue.len()
    }

    /// The number of handles given out and not yet released.
    pub fn outstanding_handles(&self) -> (r: usize)
        ensures
            r == self.outstanding(),
    {
        self.outstanding
    }
}

/// Turns a container into a [`DynQueue`] of its items, drained under strict
/// liveness.
pub trait IntoDynQueue<T>: Queue<T> {
    /// A queue of the items of `self`.
    fn into_dyn_queue(self) -> (r: DynQueue<T, Self>)
        ensures
            r.is_fresh(self.items(), Liveness::Strict),
            r.id() == Seq::<nat>::empty(),
    ;
}

impl<T> IntoDynQueue<T> for Vec<T> {
    fn into_dyn_queue(self) -> (r: DynQueue<T, Self>) {
        DynQueue::new(self)
    }
}

impl<T> IntoDynQueue<T> for VecDeque<T> {
    fn into_dyn_queue(self) -> (r: DynQueue<T, Self>) {
        DynQueue::new(self)
    }
}

impl IntoDynQueue<u64> for SegQueue<u64> {
    fn into_dyn_queue(self) -> (r: DynQueue<u64, Self>) {
        DynQueue::new(self)
    }
}

} // verus!

use crate::queue::{split_kept, split_taken, taken_count, Queue};
use crossbeam_queue::SegQueue;
use vstd::prelude::*;

verus! {

#[verifier::external_type_specification]
#[verifier::external_body]
#[verifier::reject_recursive_types(T)]
pub struct ExSegQueue<T>(SegQueue<T>);

/// The values held by a lock-free segmented queue, from head to tail.
pub uninterp spec fn seg_items(q: SegQueue<u64>) -> Seq<u64>;

/// Relies on `SegQueue::new`: a new queue holds nothing.
#[verifier::external_body]
fn seg_new() -> (r: SegQueue<u64>)
    ensures
        seg_items(r) == Seq::<u64>::empty(),
{
    SegQueue::new()
}

/// Relies on `SegQueue::push_mut`: the value is pushed at the tail.
#[verifier::external_body]
fn seg_push(q: &mut SegQueue<u64>, v: u64)
    ensures
        seg_items(*final(q)) == seg_items(*old(q)).push(v),
{
    q.push_mut(v)
}

/// Relies on `SegQueue::pop_mut`: the head value is removed and returned,
/// `None` when the queue is empty.
#[verifier::external_body]
fn seg_pop(q: &mut SegQueue<u64>) -> (r: Option<u64>)
    ensures
        seg_items(*old(q)).len() == 0 ==> r is None && seg_items(*final(q)) == seg_items(*old(q)),
        seg_items(*old(q)).len() > 0 ==> r == Some(seg_items(*old(q))[0]) && seg_items(*final(q))
            == seg_items(*old(q)).subrange(1, seg_items(*old(q)).len() as int),
{
    q.pop_mut()
}

/// Relies on `SegQueue::len`: the number of values in the queue.
#[verifier::external_body]
fn seg_len(q: &SegQueue<u64>) -> (r: usize)
    ensures
        r == seg_items(*q).len(),
{
    q.len()
}

/// The lock-free segmented queue of crossbeam, first in, first out.
impl Queue<u64> for SegQueue<u64> {
    open spec fn items(&self) -> Seq<u64> {
        seg_items(*self)
    }

    open spec fn fifo() -> bool {
        true
    }

    open spec fn split_from_back() -> bool {
        false
    }

    fn push(&mut self, v: u64) {
        seg_push(self, v);
    }

    fn pop(&mut self) -> (r: Option<u64>) {
        seg_pop(self)
    }

    fn len(&self) -> (r: usize) {
        seg_len(self)
    }

    fn split_off(&mut self, size: usize) -> (r: Self) {
        let ghost start = seg_items(*self);
        let len = seg_len(self);
        let k: usize = if size < len {
            size
        } else {
            len
        };
        let mut taken = seg_new();
        let mut i: usize = 0;
        while i < k
            invariant
                k == taken_count(start, size as nat),
                k <= start.len(),
                i <= k,
                seg_items(taken) == start.subrange(0, i as int),
                seg_items(*self) == start.subrange(i as int, start.len() as int),
            decreases k - i,
        {
            let v = seg_pop(self);
            match v {
                Some(x) => seg_push(&mut taken, x),
                None => {},
            }
            i = i + 1;
        }
        proof {
            assert(seg_items(taken) =~= split_taken(start, size as nat, false));
            assert(seg_items(*self) =~= split_kept(start, size as nat, false));
        }
        taken
    }
}

} // verus!

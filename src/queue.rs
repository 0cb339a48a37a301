use std::collections::VecDeque;
use vstd::prelude::*;

verus! {

/// Position in `s` of the item that `pop` hands out next: the oldest one for a
/// first-in first-out queue, the newest one for a stack.
pub open spec fn next_index(len: int, fifo: bool) -> int {
    if fifo {
        0
    } else {
        len - 1
    }
}

/// What is left of `s` after `pop` took its next item.
pub open spec fn after_pop<T>(s: Seq<T>, fifo: bool) -> Seq<T> {
    if fifo {
        s.subrange(1, s.len() as int)
    } else {
        s.drop_last()
    }
}

/// How many items `split_off(n)` moves out of a queue holding `s`.
pub open spec fn taken_count<T>(s: Seq<T>, n: nat) -> int {
    if n < s.len() {
        n as int
    } else {
        s.len() as int
    }
}

/// The items that `split_off(n)` moves out: the newest ones when the queue
/// splits from the back, the oldest ones otherwise, in their order.
pub open spec fn split_taken<T>(s: Seq<T>, n: nat, from_back: bool) -> Seq<T> {
    let k = taken_count(s, n);
    if from_back {
        s.subrange(s.len() - k, s.len() as int)
    } else {
        s.subrange(0, k)
    }
}

/// The items that `split_off(n)` leaves behind, in their order.
pub open spec fn split_kept<T>(s: Seq<T>, n: nat, from_back: bool) -> Seq<T> {
    let k = taken_count(s, n);
    if from_back {
        s.subrange(0, s.len() - k)
    } else {
        s.subrange(k, s.len() as int)
    }
}

/// Popping loses and duplicates nothing: the item handed out together with
/// what is left makes up exactly what was there.
pub proof fn lemma_pop_keeps_items<T>(s: Seq<T>, fifo: bool)
    requires
        s.len() > 0,
    ensures
        after_pop(s, fifo).to_multiset().insert(s[next_index(s.len() as int, fifo)])
            == s.to_multiset(),
{
    broadcast use vstd::seq_lib::group_to_multiset_ensures;

    let rest = after_pop(s, fifo);
    let v = s[next_index(s.len() as int, fifo)];
    if fifo {
        assert(s =~= seq![v] + rest);
        vstd::seq_lib::lemma_multiset_commutative(seq![v], rest);
        vstd::seq_lib::lemma_multiset_commutative(rest, seq![v]);
        assert(rest + seq![v] =~= rest.push(v));
    } else {
        assert(s =~= rest.push(v));
    }
}

/// For a queue of length `L`, `split_off(n)` leaves `L - min(n, L)` items
/// behind and moves `min(n, L)` items out; the two parts together hold
/// exactly the items of the queue, none lost and none duplicated.
pub proof fn lemma_split_off_partition<T>(s: Seq<T>, n: nat, from_back: bool)
    ensures
        split_taken(s, n, from_back).len() == if n < s.len() {
            n
        } else {
            s.len()
        },
        split_kept(s, n, from_back).len() == s.len() - split_taken(s, n, from_back).len(),
        split_kept(s, n, from_back).to_multiset().add(split_taken(s, n, from_back).to_multiset())
            == s.to_multiset(),
{
    let kept = split_kept(s, n, from_back);
    let taken = split_taken(s, n, from_back);
    if from_back {
        assert(s =~= kept + taken);
        vstd::seq_lib::lemma_multiset_commutative(kept, taken);
    } else {
        assert(s =~= taken + kept);
        vstd::seq_lib::lemma_multiset_commutative(taken, kept);
    }
}

/// A container that a [`crate::DynQueue`] can be drained from.
///
/// Its contents are modelled by `items`, oldest first. `push` adds at the
/// newest end; `pop` takes from the end that `fifo` selects, and `split_off`
/// from the end that `split_from_back` selects.
pub trait Queue<T>: Sized {
    /// The items held, oldest first.
    spec fn items(&self) -> Seq<T>;

    /// Whether `pop` takes the oldest item (true) or the newest one (false).
    spec fn fifo() -> bool;

    /// Whether `split_off` moves out the newest items (true) or the oldest
    /// ones (false).
    spec fn split_from_back() -> bool;

    /// Adds `v` as the newest item.
    fn push(&mut self, v: T)
        ensures
            final(self).items() == old(self).items().push(v),
    ;

    /// Removes and returns the next item, or returns `None` on an empty queue.
    fn pop(&mut self) -> (r: Option<T>)
        ensures
            old(self).items().len() == 0 ==> r is None && final(self).items() == old(self).items(),
            old(self).items().len() > 0 ==> r == Some(
                old(self).items()[next_index(old(self).items().len() as int, Self::fifo())],
            ) && final(self).items() == after_pop(old(self).items(), Self::fifo()),
    ;

    /// The number of items held.
    fn len(&self) -> (r: usize)
        ensures
            r == self.items().len(),
    ;

    /// Moves `min(size, len)` items from the end that `split_from_back`
    /// selects into a new queue of the same kind; both parts keep their order.
    fn split_off(&mut self, size: usize) -> (r: Self)
        ensures
            final(self).items() == split_kept(old(self).items(), size as nat, Self::split_from_back()),
            r.items() == split_taken(old(self).items(), size as nat, Self::split_from_back()),
    ;
}

/// A vector used as a stack: the newest item leaves first.
impl<T> Queue<T> for Vec<T> {
    open spec fn items(&self) -> Seq<T> {
        self@
    }

    open spec fn fifo() -> bool {
        false
    }

    open spec fn split_from_back() -> bool {
        true
    }

    fn push(&mut self, v: T) {
        Vec::push(self, v);
    }

    fn pop(&mut self) -> (r: Option<T>) {
        Vec::pop(self)
    }

    fn len(&self) -> (r: usize) {
        Vec::len(self)
    }

    fn split_off(&mut self, size: usize) -> (r: Self) {
        let len = Vec::len(self);
        let k: usize = if size < len {
            size
        } else {
            len
        };
        Vec::split_off(self, len - k)
    }
}

/// A double-ended queue used first in, first out.
impl<T> Queue<T> for VecDeque<T> {
    open spec fn items(&self) -> Seq<T> {
        self@
    }

    open spec fn fifo() -> bool {
        true
    }

    open spec fn split_from_back() -> bool {
        true
    }

    fn push(&mut self, v: T) {
        self.push_back(v);
    }

    fn pop(&mut self) -> (r: Option<T>) {
        self.pop_front()
    }

    fn len(&self) -> (r: usize) {
        VecDeque::len(self)
    }

    fn split_off(&mut self, size: usize) -> (r: Self) {
        broadcast use vstd::std_specs::vecdeque::group_vec_dequeue_axioms;

        let len = VecDeque::len(self);
        let k: usize = if size < len {
            size
        } else {
            len
        };
        VecDeque::split_off(self, len - k)
    }
}

} // verus!

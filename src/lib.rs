//! A work queue that can grow while it is being drained.
//!
//! A [`DynQueue`] hands out its items one by one, each paired with a
//! [`DynQueueHandle`] through which the code that processes the item can add
//! new items to the same queue. A queue can be split in two so that separate
//! workers drain the halves, and the bookkeeping of outstanding handles makes
//! sure that no draining worker stops while a handle could still add work.

mod dyn_queue;
mod laws;
mod queue;
mod seg_queue;

pub use dyn_queue::{DynQueue, DynQueueHandle, IntoDynQueue, Liveness, Step};
pub use laws::{
    added_of, delivered_of, drained, given_of, initial_of, lemma_drained_family,
    lemma_enqueued_is_delivered, lemma_fold_delivers_all, lemma_no_resurrection, sum_of,
};
pub use queue::{
    after_pop, lemma_pop_keeps_items, lemma_split_off_partition, next_index, split_kept,
    split_taken, taken_count, Queue,
};
pub use seg_queue::seg_items;

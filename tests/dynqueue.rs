use crossbeam_queue::SegQueue;
use dynqueue::{DynQueue, IntoDynQueue, Liveness, Queue, Step};
use std::collections::VecDeque;

/// Drains `q` on one thread. For each item handed out, `rule` names the new
/// items to add, which are added through the item's handle. Returns the items
/// in the order they were handed out.
fn drain<U: Queue<u64>>(q: &mut DynQueue<u64, U>, rule: fn(u64, &mut Vec<u64>)) -> Vec<u64> {
    let mut out = Vec::new();
    loop {
        match q.next_step(false) {
            Step::Deliver(h, v) => {
                let mut jobs = Vec::new();
                rule(v, &mut jobs);
                for job in jobs {
                    h.enqueue(q, job);
                }
                out.push(v);
                q.release(h);
            }
            Step::Done => break,
            Step::Wait => panic!("no handle can be outstanding here"),
            Step::StaleHandle => panic!("Stale Handle"),
        }
    }
    out
}

/// Splits `q` as far as it goes and drains the parts in turn, one item of
/// each part at a time, as a pool of workers would.
fn drain_split<U: Queue<u64>>(q: DynQueue<u64, U>, rule: fn(u64, &mut Vec<u64>)) -> Vec<u64> {
    let mut parts = vec![q];
    let mut i: usize = 0;
    while i < parts.len() {
        match parts[i].split() {
            Some(o) => parts.push(o),
            None => i += 1,
        }
    }
    let mut out = Vec::new();
    let mut running = true;
    while running {
        running = false;
        for q in parts.iter_mut() {
            match q.next_step(false) {
                Step::Deliver(h, v) => {
                    let mut jobs = Vec::new();
                    rule(v, &mut jobs);
                    for job in jobs {
                        h.enqueue(q, job);
                    }
                    out.push(v);
                    q.release(h);
                    running = true;
                }
                Step::Done => {}
                Step::Wait => panic!("no handle can be outstanding here"),
                Step::StaleHandle => panic!("Stale Handle"),
            }
        }
    }
    out
}

fn add_four_on_two(v: u64, jobs: &mut Vec<u64>) {
    if v == 2 {
        jobs.push(4);
    }
}

fn handle_queue(v: u64, jobs: &mut Vec<u64>) {
    if v % 2 == 0 {
        jobs.push(11);
    }
    if v % 3 == 0 {
        jobs.push(11);
    }
    if v % 4 == 0 {
        jobs.push(11);
    }
    if v == 11 {
        jobs.push(5);
        jobs.push(17);
    }
}

fn no_work(_v: u64, _jobs: &mut Vec<u64>) {}

fn get_input() -> Vec<u64> {
    vec![
        1, 2, 3, 4, 5, 6, 7, 8, 9, 10, 11, 12, 13, 14, 15, 16, 17, 18, 19, 20, 21,
    ]
}

fn get_expected() -> Vec<u64> {
    vec![
        1, 2, 3, 4, 5, 5, 5, 5, 5, 5, 5, 5, 5, 5, 5, 5, 5, 5, 5, 5, 5, 5, 5, 5, 5, 5, 5, 5, 6, 7,
        8, 9, 10, 11, 11, 11, 11, 11, 11, 11, 11, 11, 11, 11, 11, 11, 11, 11, 11, 11, 11, 11, 11,
        11, 11, 11, 12, 13, 14, 15, 16, 17, 17, 17, 17, 17, 17, 17, 17, 17, 17, 17, 17, 17, 17, 17,
        17, 17, 17, 17, 17, 17, 17, 17, 17, 18, 19, 20, 21,
    ]
}

fn seg_of(items: Vec<u64>) -> SegQueue<u64> {
    let q = SegQueue::new();
    for v in items {
        q.push(v);
    }
    q
}

/// The cascading workload on a stack, split among workers that take turns.
#[test]
fn dynqueue_iter_test_const_sleep() {
    let mut res = drain_split(DynQueue::new(get_input()), handle_queue);
    res.sort();
    assert_eq!(res, get_expected());
}

/// The cascading workload on a segmented queue, split among workers that take turns.
#[test]
fn dynqueue_iter_test_const_sleep_segqueue() {
    let mut res = drain_split(DynQueue::new(seg_of(get_input())), handle_queue);
    res.sort();
    assert_eq!(res, get_expected());
}

/// The cascading workload on a double-ended queue, split among workers that take turns.
#[test]
fn dynqueue_iter_test_const_sleep_vecdeque() {
    let mut res = drain_split(DynQueue::new(VecDeque::from(get_input())), handle_queue);
    res.sort();
    assert_eq!(res, get_expected());
}

/// The cascading workload on a stack, drained by one worker.
#[test]
fn dynqueue_iter_test_sleep_v() {
    let mut q = get_input().into_dyn_queue();
    let mut res = drain(&mut q, handle_queue);
    res.sort();
    assert_eq!(res, get_expected());
}

/// The cascading workload on a stack, drained by one worker in turns with a
/// queue split off from it.
#[test]
fn dynqueue_iter_test_sleep_inv_v() {
    let mut q = get_input().into_dyn_queue();
    let mut other = q.split().expect("many items split");
    let mut res = drain(&mut other, handle_queue);
    res.extend(drain(&mut q, handle_queue));
    res.sort();
    assert_eq!(res, get_expected());
}

/// The cascading workload on a double-ended queue, drained by one worker.
#[test]
fn cascading_growth_on_fifo_queue() {
    let mut q = VecDeque::from(get_input()).into_dyn_queue();
    let mut res = drain(&mut q, handle_queue);
    res.sort();
    assert_eq!(res, get_expected());
}

#[test]
fn stack_queue_grows_while_drained() {
    let mut q = vec![1u64, 2, 3].into_dyn_queue();
    let mut res = drain(&mut q, add_four_on_two);
    assert_eq!(res, vec![3, 2, 4, 1]);
    res.sort();
    assert_eq!(res, vec![1, 2, 3, 4]);
}

#[test]
fn fifo_queue_grows_while_drained() {
    let mut q = VecDeque::from(vec![1u64, 2, 3]).into_dyn_queue();
    let mut res = drain(&mut q, add_four_on_two);
    res.sort();
    assert_eq!(res, vec![1, 2, 3, 4]);
}

#[test]
fn segqueue_grows_while_drained() {
    let mut q = seg_of(vec![1, 2, 3]).into_dyn_queue();
    let res = drain(&mut q, add_four_on_two);
    assert_eq!(res, vec![1, 2, 3, 4]);
}

#[test]
fn cascading_growth_after_splits() {
    let mut res = drain_split(DynQueue::new(get_input()), handle_queue);
    assert_eq!(res.len(), 89);
    res.sort();
    assert_eq!(res, get_expected());
}

#[test]
fn drained_queue_stays_drained() {
    let mut q = vec![7u64].into_dyn_queue();
    assert_eq!(drain(&mut q, no_work), vec![7]);
    assert!(matches!(q.next_step(false), Step::Done));
    assert!(matches!(q.next_step(false), Step::Done));
    assert_eq!(q.len(), 0);
}

#[test]
fn full_consumer_stops_and_leaves_items() {
    let mut q = vec![1u64, 2, 3, 4, 5].into_dyn_queue();
    let mut delivered = Vec::new();
    let n: usize = 2;
    loop {
        let full = delivered.len() >= n;
        match q.next_step(full) {
            Step::Deliver(h, v) => {
                delivered.push(v);
                q.release(h);
            }
            Step::Done => break,
            _ => panic!("unexpected step"),
        }
    }
    assert_eq!(delivered, vec![5, 4]);
    assert_eq!(q.len(), 3);
    assert_eq!(q.outstanding_handles(), 0);
}

#[test]
fn leaked_handle_is_reported_under_strict_liveness() {
    let mut q = vec![1u64].into_dyn_queue();
    let leaked = match q.next_step(false) {
        Step::Deliver(h, v) => {
            assert_eq!(v, 1);
            h
        }
        _ => panic!("expected an item"),
    };
    assert_eq!(q.outstanding_handles(), 1);
    assert!(matches!(q.next_step(false), Step::StaleHandle));
    assert!(matches!(q.next_step(false), Step::StaleHandle));
    q.release(leaked);
    assert!(matches!(q.next_step(false), Step::Done));
}

#[test]
fn outstanding_handle_is_awaited_under_retry_liveness() {
    let mut q = DynQueue::with_liveness(vec![1u64], Liveness::Retry);
    let h = match q.next_step(false) {
        Step::Deliver(h, _) => h,
        _ => panic!("expected an item"),
    };
    assert!(matches!(q.next_step(false), Step::Wait));
    h.enqueue(&mut q, 8);
    assert_eq!(q.len(), 1);
    h.enqueue(&mut q, 9);
    assert_eq!(q.len(), 2);
    q.release(h);
    assert_eq!(q.outstanding_handles(), 0);
    assert_eq!(q.len(), 2);
    let res = drain(&mut q, no_work);
    assert_eq!(res, vec![9, 8]);
}

#[test]
fn enqueued_items_join_fifo_queue_in_order() {
    let mut q = VecDeque::from(vec![1u64]).into_dyn_queue();
    let h = match q.next_step(false) {
        Step::Deliver(h, _) => h,
        _ => panic!("expected an item"),
    };
    h.enqueue(&mut q, 2);
    h.enqueue(&mut q, 3);
    q.release(h);
    assert_eq!(drain(&mut q, no_work), vec![2, 3]);
}

#[test]
fn split_halves_the_items() {
    let mut a = vec![1u64, 2, 3, 4, 5].into_dyn_queue();
    let b = a.split();
    let mut b = b.expect("five items split");
    assert_eq!(a.len(), 3);
    assert_eq!(b.len(), 2);
    assert_eq!(drain(&mut b, no_work), vec![5, 4]);
    assert_eq!(drain(&mut a, no_work), vec![3, 2, 1]);
}

#[test]
fn split_of_fifo_moves_the_newest_items() {
    let mut a = VecDeque::from(vec![1u64, 2, 3, 4, 5]).into_dyn_queue();
    let b = a.split();
    let mut b = b.expect("five items split");
    assert_eq!(drain(&mut b, no_work), vec![4, 5]);
    assert_eq!(drain(&mut a, no_work), vec![1, 2, 3]);
}

#[test]
fn split_of_segqueue_moves_the_oldest_items() {
    let mut a = seg_of(vec![1, 2, 3, 4, 5]).into_dyn_queue();
    let b = a.split();
    let mut b = b.expect("five items split");
    assert_eq!(drain(&mut b, no_work), vec![1, 2]);
    assert_eq!(drain(&mut a, no_work), vec![3, 4, 5]);
}

#[test]
fn split_of_fewer_than_two_keeps_all() {
    let mut a = vec![1u64].into_dyn_queue();
    let b = a.split();
    assert!(b.is_none());
    assert_eq!(a.len(), 1);
    let e: Vec<u64> = Vec::new();
    let mut a = e.into_dyn_queue();
    let b = a.split();
    assert!(b.is_none());
    assert_eq!(a.len(), 0);
}

#[test]
fn split_off_vec_takes_the_newest() {
    let mut v = vec![1u64, 2, 3, 4, 5];
    let taken = <Vec<u64> as Queue<u64>>::split_off(&mut v, 2);
    assert_eq!(v, vec![1, 2, 3]);
    assert_eq!(taken, vec![4, 5]);
    let taken = <Vec<u64> as Queue<u64>>::split_off(&mut v, 10);
    assert_eq!(v, Vec::<u64>::new());
    assert_eq!(taken, vec![1, 2, 3]);
}

#[test]
fn split_off_vecdeque_takes_the_newest() {
    let mut v = VecDeque::from(vec![1u64, 2, 3, 4, 5]);
    let taken = <VecDeque<u64> as Queue<u64>>::split_off(&mut v, 2);
    assert_eq!(v, VecDeque::from(vec![1, 2, 3]));
    assert_eq!(taken, VecDeque::from(vec![4, 5]));
    let taken = <VecDeque<u64> as Queue<u64>>::split_off(&mut v, 0);
    assert_eq!(v.len(), 3);
    assert_eq!(taken.len(), 0);
}

#[test]
fn split_off_segqueue_takes_the_oldest() {
    let mut q = seg_of(vec![1, 2, 3, 4, 5]);
    let mut taken = <SegQueue<u64> as Queue<u64>>::split_off(&mut q, 3);
    assert_eq!(<SegQueue<u64> as Queue<u64>>::len(&q), 2);
    assert_eq!(<SegQueue<u64> as Queue<u64>>::len(&taken), 3);
    assert_eq!(<SegQueue<u64> as Queue<u64>>::pop(&mut taken), Some(1));
    assert_eq!(<SegQueue<u64> as Queue<u64>>::pop(&mut q), Some(4));
    let rest = <SegQueue<u64> as Queue<u64>>::split_off(&mut q, 9);
    assert_eq!(<SegQueue<u64> as Queue<u64>>::len(&rest), 1);
    assert_eq!(<SegQueue<u64> as Queue<u64>>::pop(&mut q), None);
}

#[test]
fn segqueue_is_first_in_first_out() {
    let mut q: SegQueue<u64> = SegQueue::new();
    <SegQueue<u64> as Queue<u64>>::push(&mut q, 10);
    <SegQueue<u64> as Queue<u64>>::push(&mut q, 20);
    assert_eq!(<SegQueue<u64> as Queue<u64>>::len(&q), 2);
    assert_eq!(<SegQueue<u64> as Queue<u64>>::pop(&mut q), Some(10));
    assert_eq!(<SegQueue<u64> as Queue<u64>>::pop(&mut q), Some(20));
    assert_eq!(<SegQueue<u64> as Queue<u64>>::pop(&mut q), None);
}

#[test]
fn vec_is_a_stack() {
    let mut q: Vec<u64> = Vec::new();
    <Vec<u64> as Queue<u64>>::push(&mut q, 10);
    <Vec<u64> as Queue<u64>>::push(&mut q, 20);
    assert_eq!(<Vec<u64> as Queue<u64>>::len(&q), 2);
    assert_eq!(<Vec<u64> as Queue<u64>>::pop(&mut q), Some(20));
    assert_eq!(<Vec<u64> as Queue<u64>>::pop(&mut q), Some(10));
    assert_eq!(<Vec<u64> as Queue<u64>>::pop(&mut q), None);
}

#[test]
fn enqueue_grows_only_its_own_queue() {
    let mut a = vec![1u64, 2, 3, 4].into_dyn_queue();
    let mut b = a.split().expect("four items split");
    let h = match a.next_step(false) {
        Step::Deliver(h, v) => {
            assert_eq!(v, 2);
            h
        }
        _ => panic!("expected an item"),
    };
    h.enqueue(&mut a, 7);
    assert_eq!(a.len(), 2);
    assert_eq!(b.len(), 2);
    assert!(matches!(a.next_step(false), Step::Deliver(_, 7)));
    assert_eq!(drain(&mut b, no_work), vec![4, 3]);
}

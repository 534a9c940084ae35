use sdd::anchor::CollectorAnchor;
use sdd::collector::{Collector, CollectorRoot};
use sdd::destructor::Outbox;
use sdd::model::Payload;
use sdd::{prepare, suspend, AtomicShared, Domain, Guard, Owned, Tag};
use std::sync::atomic::Ordering::Relaxed;

type Memory = Domain<usize, fn()>;

fn values(domain: &mut Memory) -> Vec<usize> {
    domain
        .take_dropped()
        .into_iter()
        .map(|payload| match payload {
            Payload::Instance(value) => value,
            Payload::Closure(_) => unreachable!(),
        })
        .collect()
}

/// Gets a guard. What has been reclaimed can still be asked for.
fn new_guard(domain: &mut Memory, thread: usize) -> Guard {
    let mut outbox = Outbox::new();
    let guard = Guard::new(domain, thread, &mut outbox).ok().unwrap();
    domain.dropped.extend(outbox.payloads);
    guard
}

/// Terminates a thread. What has been reclaimed can still be asked for.
fn terminate(domain: &mut Memory, thread: usize) {
    let mut outbox = Outbox::new();
    assert!(CollectorAnchor::drop(domain, thread, &mut outbox).is_ok());
    domain.dropped.extend(outbox.payloads);
}

fn advance(domain: &mut Memory, thread: usize) {
    let guard = new_guard(domain, thread);
    guard.accelerate(domain);
    guard.drop(domain);
}

fn retire(domain: &mut Memory, thread: usize, value: usize) {
    let owned = Owned::new(domain, value);
    owned.drop(domain, thread);
}

#[test]
fn chain_lock() {
    let mut root = CollectorRoot { epoch: 2, chain_head: 0x40 };
    assert_eq!(Collector::lock_chain(&mut root), Ok(0x40));
    assert_eq!(root.chain_head, 0x41);
    assert_eq!(Collector::lock_chain(&mut root), Err(0x41));
    Collector::mark_scan_enforced(&mut root);
    assert_eq!(root.chain_head, 0x43);
    assert_eq!(Collector::lock_chain(&mut root), Err(0x43));
    Collector::mark_scan_enforced(&mut root);
    assert_eq!(root.chain_head, 0x43);
    Collector::unlock_chain(&mut root);
    assert_eq!(root.chain_head, 0x42);
    assert_eq!(Collector::lock_chain(&mut root), Ok(0x40));
    assert_eq!(root.chain_head, 0x41);
    Collector::unlock_chain(&mut root);
    assert_eq!(root.chain_head, 0x40);
    Collector::mark_scan_enforced(&mut root);
    assert_eq!(root.chain_head, 0x42);
    assert_eq!(root.epoch, 2);
}

#[test]
fn new_collectors_are_put_in_front() {
    let mut domain: Memory = Domain::new();
    let first = domain.attach();
    let second = domain.attach();
    assert_eq!((first, second), (0, 1));
    let c1 = Collector::current(&mut domain, first);
    domain.mark();
    let c2 = Collector::current(&mut domain, second);
    assert_eq!(Collector::current(&mut domain, first), c1);
    assert_eq!(Tag::unset_tag(domain.root.chain_head), c2);
    assert_eq!(Tag::into_tag(domain.root.chain_head), Tag::Second);
    assert_eq!(domain.collector(c2).next_link, c1);
    assert_eq!(domain.collector(c1).next_link, 0);
    assert_eq!(domain.collector(c2).state, Collector::INACTIVE);
}

#[test]
fn thread_that_is_not_ready_stops_scan() {
    let mut domain: Memory = Domain::new();
    let main = domain.attach();
    let other = domain.attach();
    let guard = new_guard(&mut domain, other);
    advance(&mut domain, main);
    assert_eq!(domain.root.epoch, 1);
    let mine = new_guard(&mut domain, main);
    let c = mine.collector_ptr;
    assert!(Collector::leave(&mut domain, mine));
    assert!(!Collector::scan(&mut domain, c));
    assert_eq!(domain.root.epoch, 1);
    assert_eq!(Tag::into_tag(domain.root.chain_head), Tag::Neither);
    Collector::retreat(&mut domain, c);
    assert_eq!(domain.collector(c).next_epoch_update, 254);
    assert_eq!(domain.collector(c).state, 1 | Collector::INACTIVE);
    guard.drop(&mut domain);
}

#[test]
fn scan_step_by_step() {
    let mut domain: Memory = Domain::new();
    let main = domain.attach();
    let gone = domain.attach();
    let late = domain.attach();
    retire(&mut domain, gone, 5);
    let invalid = domain.locals[gone];
    assert!(suspend(&mut domain, gone));
    let guard = new_guard(&mut domain, main);
    let c = guard.collector_ptr;
    assert!(Collector::leave(&mut domain, guard));

    let mut cursor = Collector::scan_begin(&mut domain, c).unwrap();
    assert_eq!(cursor.known_epoch, 0);
    assert_eq!(cursor.current_ptr, c);
    assert!(Collector::clear_begin(&mut domain).is_none());
    assert!(Collector::scan_step(&mut domain, &mut cursor));
    assert_eq!(cursor.previous_ptr, c);
    assert_eq!(cursor.current_ptr, invalid);

    // A thread that loads the epoch now announces it later.
    let late_collector = Collector::current(&mut domain, late);
    let epoch = Collector::load_epoch(&mut domain, late_collector);

    assert!(Collector::scan_step(&mut domain, &mut cursor));
    assert_eq!(cursor.previous_ptr, c);
    assert_eq!(cursor.current_ptr, 0);
    assert_eq!(domain.collector(c).next_link, 0);
    assert_eq!(domain.collector(c).current_instance_link.unwrap().data, invalid);
    Collector::scan_advance(&mut domain, &cursor);
    domain.mark();
    Collector::scan_end(&mut domain, cursor);
    assert_eq!(domain.root.epoch, 1);
    assert_eq!(Tag::into_tag(domain.root.chain_head), Tag::Second);
    Collector::retreat(&mut domain, c);

    let (guard, updated) = Collector::announce(&mut domain, late_collector, epoch);
    assert!(!updated);
    assert_eq!(domain.collector(late_collector).state, 0);
    guard.drop(&mut domain);
    assert_eq!(domain.collector(late_collector).state, Collector::INACTIVE);
}

#[test]
fn first_collector_is_unlinked_from_root() {
    let mut domain: Memory = Domain::new();
    let main = domain.attach();
    let gone = domain.attach();
    assert!(prepare(&mut domain, main, &mut Outbox::new()).is_ok());
    retire(&mut domain, gone, 5);
    assert!(suspend(&mut domain, gone));
    let c = domain.locals[main];
    assert_ne!(Tag::unset_tag(domain.root.chain_head), c);
    advance(&mut domain, main);
    assert_eq!(domain.root.chain_head, c);
    assert_eq!(domain.root.epoch, 1);
    advance(&mut domain, main);
    advance(&mut domain, main);
    assert!(values(&mut domain).is_empty());
    advance(&mut domain, main);
    assert_eq!(values(&mut domain), vec![5]);
}

#[test]
fn invalid_head_stays_if_another_collector_comes_first() {
    let mut domain: Memory = Domain::new();
    let main = domain.attach();
    let gone = domain.attach();
    let late = domain.attach();
    let guard = new_guard(&mut domain, main);
    let c = guard.collector_ptr;
    retire(&mut domain, gone, 5);
    let invalid = domain.locals[gone];
    assert!(suspend(&mut domain, gone));
    Collector::leave(&mut domain, guard);
    let mut cursor = Collector::scan_begin(&mut domain, c).unwrap();
    assert_eq!(cursor.current_ptr, invalid);
    let newcomer = Collector::current(&mut domain, late);
    assert!(Collector::scan_step(&mut domain, &mut cursor));
    assert_eq!(cursor.previous_ptr, invalid);
    assert_eq!(cursor.current_ptr, c);
    assert_eq!(domain.collector(newcomer).next_link, invalid);
    assert!(Collector::scan_step(&mut domain, &mut cursor));
    Collector::scan_end(&mut domain, cursor);
    Collector::retreat(&mut domain, c);
    assert_eq!(domain.root.epoch, 0);
}

#[test]
fn reclamation_step_by_step() {
    let mut domain: Memory = Domain::new();
    let thread = domain.attach();
    for value in [1, 2, 3] {
        retire(&mut domain, thread, value);
    }
    for _ in 0..3 {
        advance(&mut domain, thread);
    }
    let c = domain.locals[thread];
    let epoch = Collector::load_epoch(&mut domain, c);
    let (_, updated) = Collector::announce(&mut domain, c, epoch);
    assert!(updated);
    assert!(!Collector::reclaim_next(&mut domain, c));
    Collector::rotate(&mut domain, c);
    assert!(!domain.collector(c).has_garbage);
    Collector::reclaim_first(&mut domain, c);
    assert_eq!(values(&mut domain), vec![3]);
    assert!(Collector::reclaim_next(&mut domain, c));
    assert!(Collector::reclaim_next(&mut domain, c));
    assert!(!Collector::reclaim_next(&mut domain, c));
    assert_eq!(values(&mut domain), vec![2, 1]);
    assert!(domain.collector(c).garbage_link.is_none());
}

#[test]
fn failed_reclamation_is_taken_back() {
    let mut domain: Memory = Domain::new();
    let thread = domain.attach();
    for value in [1, 2, 3] {
        retire(&mut domain, thread, value);
    }
    for _ in 0..3 {
        advance(&mut domain, thread);
    }
    let c = domain.locals[thread];
    let epoch = Collector::load_epoch(&mut domain, c);
    let (_, updated) = Collector::announce(&mut domain, c, epoch);
    assert!(updated);
    Collector::rotate(&mut domain, c);
    Collector::reclaim_first(&mut domain, c);
    Collector::unwind(&mut domain, c);
    assert!(domain.collector(c).garbage_link.is_none());
    assert!(domain.collector(c).has_garbage);
    assert_eq!(domain.collector(c).num_readers, 0);
    assert_eq!(domain.collector(c).state & Collector::INACTIVE, Collector::INACTIVE);
    assert_eq!(domain.collector(c).next_epoch_update, 60);
    assert_eq!(values(&mut domain), vec![3]);
    for _ in 0..3 {
        advance(&mut domain, thread);
        assert!(values(&mut domain).is_empty());
    }
    advance(&mut domain, thread);
    assert_eq!(values(&mut domain), vec![1, 2]);
}

#[test]
fn collect_ignores_null() {
    let mut domain: Memory = Domain::new();
    let thread = domain.attach();
    let guard = new_guard(&mut domain, thread);
    guard.collect(&mut domain, 0);
    assert!(!domain.collector(guard.collector_ptr).has_garbage);
    guard.drop(&mut domain);
}

#[test]
fn cleared_collector_drops_list_by_list() {
    let mut domain: Memory = Domain::new();
    let thread = domain.attach();
    retire(&mut domain, thread, 1);
    advance(&mut domain, thread);
    advance(&mut domain, thread);
    retire(&mut domain, thread, 2);
    retire(&mut domain, thread, 3);
    advance(&mut domain, thread);
    let c = domain.locals[thread];
    assert!(domain.collector(c).next_instance_link.is_some());
    assert!(domain.collector(c).previous_instance_link.is_some());
    retire(&mut domain, thread, 4);
    terminate(&mut domain, thread);
    assert_eq!(values(&mut domain), vec![3, 2, 4, 1]);
    assert_eq!(domain.root.chain_head, 0);
}

#[test]
fn last_thread_clears_chain() {
    let mut domain: Memory = Domain::new();
    let first = domain.attach();
    let second = domain.attach();
    retire(&mut domain, first, 1);
    retire(&mut domain, second, 2);
    terminate(&mut domain, first);
    assert!(values(&mut domain).is_empty());
    assert_eq!(domain.locals[first], 0);
    assert_eq!(Tag::into_tag(domain.root.chain_head), Tag::Second);
    terminate(&mut domain, second);
    assert_eq!(values(&mut domain), vec![2, 1]);
    assert_eq!(domain.root.chain_head, 0);
}

#[test]
fn thread_without_collector_terminates() {
    let mut domain: Memory = Domain::new();
    let thread = domain.attach();
    terminate(&mut domain, thread);
    assert_eq!(domain.root.chain_head, 0);
    assert_eq!(domain.locals[thread], 0);
    let collector = CollectorAnchor.allocate(&mut domain);
    assert_eq!(domain.root.chain_head, collector);
    assert_eq!(domain.locals[thread], 0);
    assert_ne!(Collector::current(&mut domain, thread), collector);
}

#[test]
fn chain_is_not_cleared_under_a_newcomer() {
    let mut domain: Memory = Domain::new();
    let first = domain.attach();
    let second = domain.attach();
    retire(&mut domain, first, 1);
    let temporary = CollectorAnchor::begin_exit(&mut domain, first);
    assert_eq!(domain.locals[first], temporary);
    let mut cursor = Collector::clear_begin(&mut domain).unwrap();
    while cursor.current_ptr != 0 {
        assert!(Collector::clear_step(&mut domain, &mut cursor));
    }
    let guard = new_guard(&mut domain, second);
    assert!(!Collector::clear_commit(&mut domain, &mut cursor));
    Collector::clear_end(&mut domain, cursor);
    domain.mark();
    // What a terminating thread retires is dropped at once.
    retire(&mut domain, first, 2);
    assert!(Collector::clear_once(&mut domain, first));
    assert_eq!(values(&mut domain), vec![2]);
    retire(&mut domain, first, 3);
    assert!(Collector::clear_once(&mut domain, first));
    assert!(!Collector::clear_once(&mut domain, first));
    CollectorAnchor::finish_exit(&mut domain, first);
    assert_eq!(values(&mut domain), vec![3]);
    assert_eq!(domain.locals[first], 0);
    guard.drop(&mut domain);
}

#[test]
fn valid_collector_keeps_chain() {
    let mut domain: Memory = Domain::new();
    let first = domain.attach();
    let second = domain.attach();
    retire(&mut domain, first, 1);
    assert!(prepare(&mut domain, second, &mut Outbox::new()).is_ok());
    assert!(matches!(
        Collector::clear_chain(&mut domain, first, &mut Outbox::new()),
        Ok(false)
    ));
    assert_eq!(Tag::into_tag(domain.root.chain_head), Tag::Neither);
    terminate(&mut domain, first);
    assert!(values(&mut domain).is_empty());
    for _ in 0..4 {
        advance(&mut domain, second);
    }
    assert_eq!(values(&mut domain), vec![1]);
}

#[test]
fn nested_collectors_are_dropped() {
    let mut domain: Memory = Domain::new();
    let first = domain.attach();
    let second = domain.attach();
    let third = domain.attach();
    retire(&mut domain, first, 1);
    assert!(suspend(&mut domain, first));
    // The second thread takes over what the first has left, and is suspended itself.
    advance(&mut domain, second);
    retire(&mut domain, second, 2);
    assert!(suspend(&mut domain, second));
    let mut dropped = vec![];
    for _ in 0..4 {
        advance(&mut domain, third);
        dropped.extend(values(&mut domain));
    }
    assert_eq!(dropped, vec![2, 1]);
}

#[test]
fn dormant_reader_protects_loaded_pointer() {
    let mut domain: Memory = Domain::new();
    let reader = domain.attach();
    let writer = domain.attach();
    let mut atomic: AtomicShared<usize> = AtomicShared::new(&mut domain, 3);
    let guard = new_guard(&mut domain, reader);
    let ptr = atomic.load(Relaxed, &guard);
    let (old, _) = atomic.swap((None, Tag::Neither), Relaxed);
    old.unwrap().drop(&mut domain, writer);
    for _ in 0..20 {
        advance(&mut domain, writer);
        assert!(values(&mut domain).is_empty());
        assert_eq!(ptr.as_ref(&domain), Some(&3));
    }
    guard.drop(&mut domain);
}

#[test]
fn scan_is_due() {
    let mut domain: Memory = Domain::new();
    let thread = domain.attach();
    assert!(prepare(&mut domain, thread, &mut Outbox::new()).is_ok());
    let c = domain.locals[thread];
    assert_eq!(domain.collector(c).next_epoch_update, 255);
    assert!(!Collector::scan_due(&domain, c));
    let guard = new_guard(&mut domain, thread);
    guard.accelerate(&mut domain);
    assert!(Collector::scan_due(&domain, c));
    guard.drop(&mut domain);
    assert!(!Collector::scan_due(&domain, c));
    assert_eq!(domain.root.epoch, 1);
    Collector::accelerate(&mut domain, c);
    let guard = new_guard(&mut domain, thread);
    assert!(Collector::leave(&mut domain, guard));
    let cursor = Collector::scan_begin(&mut domain, c).unwrap();
    // The mark is gone with the lock, and there is no garbage.
    assert!(!Collector::scan_due(&domain, c));
    domain.mark();
    assert!(!Collector::scan_due(&domain, c));
    Collector::scan_end(&mut domain, cursor);
    assert!(Collector::scan_due(&domain, c));
    Collector::retreat(&mut domain, c);
    assert_eq!(domain.root.epoch, 1);
}

#[test]
fn epoch_rotates_and_garbage_moves_on() {
    let mut domain: Memory = Domain::new();
    let thread = domain.attach();
    let mut dropped = vec![];
    for round in 0..12 {
        assert_eq!(usize::from(domain.root.epoch), round % 4);
        retire(&mut domain, thread, round);
        advance(&mut domain, thread);
        dropped.extend(values(&mut domain));
        let mut expected = vec![];
        if round >= 3 {
            // The thread was in the first epoch when it retired both of these.
            expected.extend([1, 0]);
            expected.extend(2..=round - 2);
        }
        assert_eq!(dropped, expected);
    }
}

#[test]
fn counter_of_strong_references() {
    let mut domain: Memory = Domain::new();
    let thread = domain.attach();
    let first = sdd::Shared::new(&mut domain, 1);
    let address = first.underlying_ptr();
    let count = |domain: &Memory| match domain.heap.get(address) {
        sdd::heap::Body::Instance(counted) => *counted.ref_cnt(),
        _ => unreachable!(),
    };
    assert_eq!(count(&domain), 1);
    let second = first.duplicate(&mut domain);
    let third = second.duplicate(&mut domain);
    assert_eq!(count(&domain), 5);
    second.drop(&mut domain, thread);
    assert_eq!(count(&domain), 3);
    first.drop(&mut domain, thread);
    assert_eq!(*third.deref(&domain), 1);
    third.drop(&mut domain, thread);
    assert_eq!(count(&domain), 0);
}

#[test]
fn handles_do_not_affect_each_other() {
    let mut domain: Memory = Domain::new();
    let first = domain.attach();
    let second = domain.attach();
    let owned = Owned::new(&mut domain, 1);
    let shared = sdd::Shared::new(&mut domain, 2);
    let guard = new_guard(&mut domain, first);
    let other = new_guard(&mut domain, second);
    retire(&mut domain, second, 3);
    other.drop(&mut domain);
    assert!(suspend(&mut domain, second));
    terminate(&mut domain, second);
    assert_eq!(*owned.deref(&domain), 1);
    assert_eq!(*shared.deref(&domain), 2);
    assert_eq!(domain.collector(guard.collector_ptr).num_readers, 1);
    let ptr = owned.get_guarded_ptr(&guard);
    owned.drop(&mut domain, first);
    assert_eq!(ptr.as_ref(&domain), Some(&1));
    guard.drop(&mut domain);
}

use sdd::anchor::CollectorAnchor;
use sdd::collector::Collector;
use sdd::destructor::{Destructor, Log};
use sdd::model::Payload;
use sdd::{prepare, suspend, AtomicOwned, AtomicShared, Domain, Guard, Owned, Ptr, Shared, Tag};
use std::cell::Cell;
use std::rc::Rc;
use std::sync::atomic::Ordering::{Acquire, Relaxed};

struct R(Rc<Cell<usize>>);

impl Drop for R {
    fn drop(&mut self) {
        self.0.set(self.0.get() + 1);
    }
}

type Deferred = Box<dyn FnOnce()>;

/// Drops instances, and executes closures.
struct Run;

impl<T> Destructor<T, Deferred> for Run {
    fn log(&self) -> Log<T, Deferred> {
        unreachable!()
    }

    fn destroy(
        &mut self,
        _: &mut Domain<T, Deferred>,
        _: usize,
        payload: Payload<T, Deferred>,
    ) -> bool {
        match payload {
            Payload::Instance(instance) => drop(instance),
            Payload::Closure(mut closure) => closure.drop(),
        }
        true
    }
}

fn new_guard<T>(domain: &mut Domain<T, Deferred>, thread: usize) -> Guard {
    Guard::new(domain, thread, &mut Run).ok().unwrap()
}

/// Collects instances, and executes closures.
struct Values(Vec<usize>);

impl Destructor<usize, Deferred> for Values {
    fn log(&self) -> Log<usize, Deferred> {
        unreachable!()
    }

    fn destroy(
        &mut self,
        _: &mut Domain<usize, Deferred>,
        _: usize,
        payload: Payload<usize, Deferred>,
    ) -> bool {
        match payload {
            Payload::Instance(value) => self.0.push(value),
            Payload::Closure(mut closure) => closure.drop(),
        }
        true
    }
}

fn terminate<T>(domain: &mut Domain<T, Deferred>, thread: usize) {
    assert!(CollectorAnchor::drop(domain, thread, &mut Run).is_ok());
}

#[test]
fn ebr_single_threaded() {
    let dropped = Rc::new(Cell::new(0));
    let mut domain: Domain<R, Deferred> = Domain::new();
    let thread = domain.attach();

    let r = Shared::new(&mut domain, R(dropped.clone()));
    let guard = new_guard(&mut domain, thread);

    // `p` can outlive `r` as long as `guard` survives.
    let p = r.get_guarded_ptr(&guard);
    assert_eq!(dropped.get(), 0);
    r.drop(&mut domain, thread);
    assert_eq!(dropped.get(), 0);

    // It is possible to read the memory owned by `r`.
    assert!(p.as_ref(&domain).is_some());
    guard.drop(&mut domain);

    while dropped.get() != 1 {
        let guard = new_guard(&mut domain, thread);
        guard.accelerate(&mut domain);
        guard.drop(&mut domain);
    }
    assert_eq!(dropped.get(), 1);
}

#[test]
fn ebr_multi_threaded() {
    let dropped = Rc::new(Cell::new(0));
    let mut domain: Domain<R, Deferred> = Domain::new();
    let main = domain.attach();
    let r1 = Owned::new(&mut domain, R(dropped.clone()));
    let mut r2 = AtomicShared::new(&mut domain, R(dropped.clone()));

    let first = domain.attach();
    let second = domain.attach();
    let guard1 = new_guard(&mut domain, first);
    let guard2 = new_guard(&mut domain, second);
    let p1 = r1.get_guarded_ptr(&guard1);
    r1.drop(&mut domain, first);
    let p2 = r2.load(Acquire, &guard2);
    assert!(p1.as_ref(&domain).unwrap().0.get() <= 1);
    assert!(p2.as_ref(&domain).unwrap().0.get() <= 1);
    let r3 = r2.get_shared(&mut domain, Acquire, &guard2).unwrap();
    let r4 = r2
        .compare_exchange(p2, (None, Tag::Neither), Acquire, Relaxed, &guard2)
        .ok()
        .unwrap()
        .0
        .unwrap();
    guard1.drop(&mut domain);
    guard2.drop(&mut domain);

    // `r3` and `r4` can outlive `guard2`.
    assert!(r3.deref(&domain).0.get() <= 1);
    assert!(r4.deref(&domain).0.get() <= 1);
    r3.drop(&mut domain, second);
    r4.drop(&mut domain, second);
    r2.drop(&mut domain, main);
    terminate(&mut domain, first);
    terminate(&mut domain, second);

    while dropped.get() != 2 {
        let guard = new_guard(&mut domain, main);
        guard.accelerate(&mut domain);
        guard.drop(&mut domain);
    }
    assert_eq!(dropped.get(), 2);
}

#[test]
fn instance_dropped_in_third_epoch() {
    let dropped = Rc::new(Cell::new(0));
    let mut domain: Domain<R, Deferred> = Domain::new();
    let thread = domain.attach();
    let owned = Owned::new(&mut domain, R(dropped.clone()));

    let guard = new_guard(&mut domain, thread);
    let epoch_before = guard.epoch(&domain);
    guard.drop(&mut domain);

    owned.drop(&mut domain, thread);
    assert_eq!(dropped.get(), 0);

    let mut witness = || {
        let guard = new_guard(&mut domain, thread);
        let epoch = guard.epoch(&domain);
        guard.drop(&mut domain);
        epoch
    };
    while witness() == epoch_before {
        assert_eq!(dropped.get(), 0);
    }
    while witness() == epoch_before.next() {
        assert_eq!(dropped.get(), 0);
    }
    while witness() == epoch_before.next().next() {
        assert_eq!(dropped.get(), 0);
    }
    assert_eq!(dropped.get(), 1);
    assert_eq!(witness(), epoch_before.prev());
    assert_eq!(epoch_before.next_generation(), epoch_before.prev());
}

#[test]
fn defer_instance() {
    let dropped = Rc::new(Cell::new(0));
    let mut domain: Domain<R, Deferred> = Domain::new();
    let thread = domain.attach();
    let guard = new_guard(&mut domain, thread);
    guard.defer(&mut domain, Payload::Instance(R(dropped.clone())));
    guard.drop(&mut domain);
    assert_eq!(domain.root.epoch, 1);
    assert_eq!(dropped.get(), 0);
    for epoch in 2..4 {
        let guard = new_guard(&mut domain, thread);
        assert_eq!(dropped.get(), 0);
        guard.accelerate(&mut domain);
        guard.drop(&mut domain);
        assert_eq!(domain.root.epoch, epoch);
    }
    let guard = new_guard(&mut domain, thread);
    assert_eq!(dropped.get(), 1);
    guard.drop(&mut domain);
}

#[test]
fn defer_execute_waits_for_guards() {
    let executed = Rc::new(Cell::new(0));
    let mut domain: Domain<(), Deferred> = Domain::new();
    let main = domain.attach();
    let reader = domain.attach();
    let reading = new_guard(&mut domain, reader);
    let guard = new_guard(&mut domain, main);
    let counter = executed.clone();
    guard.defer_execute(&mut domain, Box::new(move || counter.set(counter.get() + 1)));
    guard.drop(&mut domain);
    for _ in 0..100 {
        let guard = new_guard(&mut domain, main);
        guard.accelerate(&mut domain);
        guard.drop(&mut domain);
    }
    assert_eq!(executed.get(), 0);
    assert_eq!(domain.root.epoch, 1);
    reading.drop(&mut domain);
    terminate(&mut domain, reader);
    for _ in 0..10 {
        let guard = new_guard(&mut domain, main);
        guard.accelerate(&mut domain);
        guard.drop(&mut domain);
    }
    assert_eq!(executed.get(), 1);
}

#[test]
fn suspend_passes_garbage() {
    let mut domain: Domain<usize, Deferred> = Domain::new();
    let thread = domain.attach();
    assert!(suspend(&mut domain, thread));
    {
        let shared: Shared<usize> = Shared::new(&mut domain, 47);
        let guard = new_guard(&mut domain, thread);
        assert!(shared.release(&mut domain, &guard));
        assert!(!suspend(&mut domain, thread));
        guard.drop(&mut domain);
    }
    let collector = domain.locals[thread];
    assert_ne!(collector, 0);
    assert!(suspend(&mut domain, thread));
    assert_eq!(domain.locals[thread], 0);
    assert_eq!(domain.collector(collector).state & Collector::INVALID, Collector::INVALID);
    assert_eq!(Tag::into_tag(domain.root.chain_head), Tag::Second);
    let new_shared: Shared<usize> = Shared::new(&mut domain, 17);
    let guard = new_guard(&mut domain, thread);
    assert_ne!(guard.collector_ptr, collector);
    new_shared.release(&mut domain, &guard);
    guard.drop(&mut domain);
}

#[test]
fn suspend_without_garbage_keeps_collector() {
    let mut domain: Domain<usize, Deferred> = Domain::new();
    let thread = domain.attach();
    let guard = new_guard(&mut domain, thread);
    guard.drop(&mut domain);
    let collector = domain.locals[thread];
    assert!(suspend(&mut domain, thread));
    assert_eq!(domain.locals[thread], collector);
    assert_eq!(Tag::into_tag(domain.root.chain_head), Tag::Neither);
}

#[test]
fn suspended_garbage_is_reclaimed_by_others() {
    let dropped = Rc::new(Cell::new(0));
    let mut domain: Domain<R, Deferred> = Domain::new();
    let dormant = domain.attach();
    let main = domain.attach();
    let owned = Owned::new(&mut domain, R(dropped.clone()));
    owned.drop(&mut domain, dormant);
    assert!(suspend(&mut domain, dormant));
    let mut rounds = 0;
    while dropped.get() == 0 {
        let guard = new_guard(&mut domain, main);
        guard.accelerate(&mut domain);
        guard.drop(&mut domain);
        rounds += 1;
    }
    assert_eq!(rounds, 4);
}

#[test]
fn prepare_allocates_collector() {
    let mut domain: Domain<usize, Deferred> = Domain::new();
    let thread = domain.attach();
    assert!(domain.has_room());
    assert!(prepare(&mut domain, thread, &mut Run).is_ok());
    let collector = domain.locals[thread];
    assert_ne!(collector, 0);
    let guard = new_guard(&mut domain, thread);
    assert_eq!(guard.collector_ptr, collector);
    guard.drop(&mut domain);
}

#[test]
fn nested_guards_are_counted() {
    let mut domain: Domain<usize, Deferred> = Domain::new();
    let thread = domain.attach();
    let first = new_guard(&mut domain, thread);
    let collector = first.collector_ptr;
    let second = new_guard(&mut domain, thread);
    let third = Guard::new_for_drop(&mut domain, collector);
    assert_eq!(domain.collector(collector).num_readers, 3);
    first.drop(&mut domain);
    assert_eq!(domain.collector(collector).num_readers, 2);
    assert_eq!(domain.collector(collector).state, 0);
    third.drop(&mut domain);
    second.drop(&mut domain);
    assert_eq!(domain.collector(collector).num_readers, 0);
    assert_eq!(domain.collector(collector).state, Collector::INACTIVE);
    assert_eq!(domain.collector(collector).next_epoch_update, Collector::CADENCE);
}

#[test]
fn cadence_of_scans() {
    let mut domain: Domain<usize, Deferred> = Domain::new();
    let thread = domain.attach();
    let guard = new_guard(&mut domain, thread);
    let collector = guard.collector_ptr;
    guard.drop(&mut domain);
    let owned = Owned::new(&mut domain, 1);
    owned.drop(&mut domain, thread);
    assert_eq!(domain.collector(collector).next_epoch_update, 63);
    let owned = Owned::new(&mut domain, 2);
    owned.drop(&mut domain, thread);
    assert_eq!(domain.collector(collector).next_epoch_update, 62);
    for _ in 0..62 {
        let guard = new_guard(&mut domain, thread);
        guard.drop(&mut domain);
    }
    assert_eq!(domain.root.epoch, 0);
    assert_eq!(domain.collector(collector).next_epoch_update, 0);
    let guard = new_guard(&mut domain, thread);
    guard.drop(&mut domain);
    assert_eq!(domain.root.epoch, 1);
    assert_eq!(domain.collector(collector).next_epoch_update, 63);
}

#[test]
fn guard_holds_epoch_back() {
    let mut domain: Domain<usize, Deferred> = Domain::new();
    let reader = domain.attach();
    let main = domain.attach();
    let reading = new_guard(&mut domain, reader);
    for _ in 0..10 {
        let guard = new_guard(&mut domain, main);
        guard.accelerate(&mut domain);
        guard.drop(&mut domain);
        assert!(reading.epoch(&domain) <= reading.epoch(&domain).next());
        assert_eq!(domain.root.epoch, 1);
    }
    reading.drop(&mut domain);
}

#[test]
fn example_in_readme() {
    let printed = Rc::new(Cell::new(false));
    let mut domain: Domain<usize, Deferred> = Domain::new();
    let thread = domain.attach();

    // `atomic_shared` holds a strong reference to `17`.
    let mut atomic_shared: AtomicShared<usize> = AtomicShared::new(&mut domain, 17);

    // `atomic_owned` owns `19`.
    let atomic_owned: AtomicOwned<usize> = AtomicOwned::new(&mut domain, 19);

    // `guard` prevents the garbage collector from dropping reachable instances.
    let guard = new_guard(&mut domain, thread);

    // `ptr` cannot outlive `guard`.
    let mut ptr: Ptr<usize> = atomic_shared.load(Relaxed, &guard);
    assert_eq!(*ptr.as_ref(&domain).unwrap(), 17);

    // `atomic_shared` can be tagged.
    atomic_shared.update_tag_if(
        Tag::First,
        |p: Ptr<usize>| p.tag() == Tag::Neither,
        Relaxed,
        Relaxed,
    );

    // `ptr` is not tagged, so CAS fails.
    let new = Shared::new(&mut domain, 18);
    assert!(atomic_shared
        .compare_exchange(ptr, (Some(new), Tag::First), Relaxed, Relaxed, &guard)
        .is_err());

    // `ptr` can be tagged.
    ptr.set_tag(Tag::First);

    // The return value of CAS is a handle to the instance that `atomic_shared` previously owned.
    let new = Shared::new(&mut domain, 18);
    let prev: Shared<usize> = atomic_shared
        .compare_exchange(ptr, (Some(new), Tag::Second), Relaxed, Relaxed, &guard)
        .ok()
        .unwrap()
        .0
        .unwrap();
    assert_eq!(*prev.deref(&domain), 17);

    // `17` will be garbage-collected later.
    prev.drop(&mut domain, thread);

    // `AtomicShared` can be converted into `Shared`.
    let shared: Shared<usize> = atomic_shared.into_shared(Relaxed).unwrap();
    assert_eq!(*shared.deref(&domain), 18);

    // `18` and `19` will be garbage-collected later.
    shared.drop(&mut domain, thread);
    atomic_owned.drop(&mut domain, thread);

    // `17` is still valid as `guard` keeps the garbage collector from dropping it.
    assert_eq!(*ptr.as_ref(&domain).unwrap(), 17);

    // Execution of a closure can be deferred until all the current readers are gone.
    let flag = printed.clone();
    guard.defer_execute(&mut domain, Box::new(move || flag.set(true)));
    guard.drop(&mut domain);
    assert!(!printed.get());

    // If the thread is expected to lie dormant for a while, call `suspend()` to allow other threads
    // to reclaim its own retired instances.
    assert!(suspend(&mut domain, thread));
    let other = domain.attach();
    let mut values = Values(vec![]);
    while !printed.get() {
        let guard = Guard::new(&mut domain, other, &mut values).ok().unwrap();
        guard.accelerate(&mut domain);
        guard.drop(&mut domain);
    }
    assert_eq!(values.0, vec![19, 18, 17]);
}

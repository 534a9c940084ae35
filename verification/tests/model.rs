use loom::sync::atomic::AtomicBool;
use loom::sync::{Arc, Mutex};
use sdd::collector::Collector;
use sdd::destructor::{Destructor, Log};
use sdd::model::Payload;
use sdd::{suspend, Domain, Guard, Owned};
use std::sync::atomic::Ordering::Relaxed;

struct A(Arc<AtomicBool>);

impl Drop for A {
    fn drop(&mut self) {
        assert!(!self.0.swap(true, Relaxed));
    }
}

type Memory = Arc<Mutex<Domain<A, fn()>>>;

/// Drops instances, and executes closures.
struct Run;

impl Destructor<A, fn()> for Run {
    fn log(&self) -> Log<A, fn()> {
        unreachable!()
    }

    fn destroy(&mut self, _: &mut Domain<A, fn()>, _: usize, payload: Payload<A, fn()>) -> bool {
        match payload {
            Payload::Instance(instance) => drop(instance),
            Payload::Closure(mut closure) => closure.drop(),
        }
        true
    }
}

fn new_guard(memory: &Memory, thread: usize) -> Guard {
    Guard::new(&mut *memory.lock().unwrap(), thread, &mut Run).ok().unwrap()
}

#[test]
fn ebr() {
    loom::model(|| {
        let memory: Memory = Arc::new(Mutex::new(Domain::new()));
        let main = memory.lock().unwrap().attach();
        let other = memory.lock().unwrap().attach();

        let flag = Arc::new(AtomicBool::new(false));
        let data = Owned::new(&mut *memory.lock().unwrap(), A(flag.clone()));

        let guard = new_guard(&memory, main);
        let ptr = data.get_guarded_ptr(&guard);

        let shared_memory = memory.clone();
        let thread = loom::thread::spawn(move || {
            let memory = shared_memory;
            let guard = new_guard(&memory, other);
            let ptr = data.get_guarded_ptr(&guard);
            data.drop(&mut *memory.lock().unwrap(), other);

            assert!(!ptr.as_ref(&*memory.lock().unwrap()).unwrap().0.load(Relaxed));
            guard.drop(&mut *memory.lock().unwrap());

            assert!(suspend(&mut *memory.lock().unwrap(), other));
        });

        assert!(!ptr.as_ref(&*memory.lock().unwrap()).unwrap().0.load(Relaxed));
        assert!(!flag.load(Relaxed));
        guard.accelerate(&mut *memory.lock().unwrap());
        guard.drop(&mut *memory.lock().unwrap());

        assert!(thread.join().is_ok());
    });
}

/// Gets a guard in two steps, and reclaims what is due.
fn enter(memory: &Memory, thread: usize) -> Guard {
    let c = Collector::current(&mut *memory.lock().unwrap(), thread);
    let epoch = Collector::load_epoch(&mut *memory.lock().unwrap(), c);
    let (guard, updated) = Collector::announce(&mut *memory.lock().unwrap(), c, epoch);
    if updated {
        let memory = &mut *memory.lock().unwrap();
        assert!(Collector::epoch_updated(memory, thread, c, &mut Run).is_ok());
    }
    guard
}

/// Drops a guard step by step, and tries to change the epoch.
fn leave(memory: &Memory, guard: Guard) {
    let c = guard.collector_ptr;
    assert!(Collector::leave(&mut *memory.lock().unwrap(), guard));
    let cursor = Collector::scan_begin(&mut *memory.lock().unwrap(), c);
    if let Some(mut cursor) = cursor {
        let mut ready = true;
        while ready && cursor.current_ptr != 0 {
            ready = Collector::scan_step(&mut *memory.lock().unwrap(), &mut cursor);
        }
        if ready {
            Collector::scan_advance(&mut *memory.lock().unwrap(), &cursor);
        }
        Collector::scan_end(&mut *memory.lock().unwrap(), cursor);
    }
    Collector::retreat(&mut *memory.lock().unwrap(), c);
}

#[test]
fn steps_interleave() {
    let mut builder = loom::model::Builder::new();
    builder.preemption_bound = Some(2);
    builder.check(|| {
        let memory: Memory = Arc::new(Mutex::new(Domain::new()));
        let main = memory.lock().unwrap().attach();
        let other = memory.lock().unwrap().attach();
        let flag = Arc::new(AtomicBool::new(false));
        let data = Owned::new(&mut *memory.lock().unwrap(), A(flag.clone()));
        let guard = new_guard(&memory, main);
        let ptr = data.get_guarded_ptr(&guard);

        let shared_memory = memory.clone();
        let thread = loom::thread::spawn(move || {
            let memory = shared_memory;
            let guard = new_guard(&memory, other);
            data.drop(&mut *memory.lock().unwrap(), other);
            leave(&memory, guard);
            for _ in 0..2 {
                let guard = enter(&memory, other);
                leave(&memory, guard);
            }
        });

        assert!(!ptr.as_ref(&*memory.lock().unwrap()).unwrap().0.load(Relaxed));
        leave(&memory, guard);
        assert!(thread.join().is_ok());
    });
}

# Epoch-based reclamation

A library for epoch-based reclamation, written and verified with Verus. Threads read shared
instances under a `Guard`; an instance that loses its last owner is retired, and it is reclaimed
once nobody can read it any more. `Owned` and `AtomicOwned` retire the instance that they own;
`Shared` and `AtomicShared` hold a reference-counted instance, which is retired when the last strong
reference is dropped.

## Threads and memory

The words that threads share, the collectors of the threads and all instances live in a `Domain`.
Every function that takes a domain is one step of a thread. What takes a thread several steps
(getting a guard, scanning the chain of collectors, reclaiming garbage, terminating) is offered both
as one function and step by step, so that the proofs hold for any order in which threads take turns.
Memory orderings are taken and, where they would be refused, excluded; they have no effect on a step.

What has been reclaimed is destroyed by a `Destructor`, which drops instances and executes closures,
and may retire others. If it fails, the thread does not get its guard, and what has not been reclaimed
is kept. `Outbox` is a destructor that keeps everything for later. Whoever takes the steps one by one
gets what has been reclaimed from `Domain::take_dropped`, in the order in which it is to be destroyed.

## Layout

- `src/epoch.rs`, `src/tag.rs`: the values that are embedded in shared words.
- `src/collectible.rs`, `src/ref_counted.rs`, `src/heap.rs`: what lives in memory.
- `src/collector.rs`, `src/anchor.rs`: the collector of a thread, and its cleanup.
- `src/destructor.rs`: how what has been reclaimed is destroyed.
- `src/guard.rs`, `src/ptr.rs`, `src/owned.rs`, `src/shared.rs`, `src/ownership.rs`,
  `src/atomic.rs`, `src/lib.rs`: what users work with.
- `src/model.rs`: the mathematical model of a domain, and what each step makes of it.
- `src/validity.rs`, `src/steps.rs`: what holds in every state, and that every step keeps it.
- `src/domain.rs`, `src/instances.rs`: how memory stands for the model.
- `src/destruction.rs`, `src/extent.rs`, `src/clearing.rs`, `src/scanning.rs`: what greater steps
  amount to.
- `src/acting.rs`: what a thread, or a destructor, does in its own right.
- `src/protection.rs`, `src/handles.rs`: what threads read and hold stays in place.
- `src/laws.rs`: what the library promises as a whole.
- `app/`: one domain for all threads of a process, with handles that drop themselves.

## Example

```rust
use sdd::destructor::Outbox;
use sdd::{suspend, AtomicShared, Domain, Guard, Ptr, Shared, Tag};
use std::sync::atomic::Ordering::Relaxed;

let mut domain: Domain<usize, fn()> = Domain::new();
let thread = domain.attach();
let mut outbox = Outbox::new();

// `atomic_shared` holds a strong reference to `17`.
let mut atomic_shared: AtomicShared<usize> = AtomicShared::new(&mut domain, 17);

// `guard` prevents the garbage collector from dropping reachable instances.
let guard = Guard::new(&mut domain, thread, &mut outbox).ok().unwrap();

// `ptr` cannot outlive `guard`.
let ptr: Ptr<usize> = atomic_shared.load(Relaxed, &guard);

// The return value of `swap` is a handle to the instance that `atomic_shared` previously owned.
let (prev, _) = atomic_shared.swap((None, Tag::Neither), Relaxed);
prev.unwrap().drop(&mut domain, thread);

// `17` is still valid as `guard` keeps the garbage collector from dropping it.
assert_eq!(*ptr.as_ref(&domain).unwrap(), 17);
guard.drop(&mut domain);

// Other threads may reclaim what the thread has retired.
assert!(suspend(&mut domain, thread));
```

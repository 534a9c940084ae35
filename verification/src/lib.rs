//! Epoch-based reclamation.
//!
//! Threads read shared instances under a [`Guard`]. An instance that loses its last owner is
//! retired, and it is reclaimed once nobody can read it any more.
//!
//! All that threads share lives in a [`Domain`]. Whatever a thread does is a function of the domain,
//! which stands for a mathematical [`Model`](model::Model); what holds of it in whatever order
//! threads take turns is stated in [`laws`]. What each operation does to what it finds is stated in
//! [`behaviour`], [`reclamation`], [`progress`] and [`representation`].

pub mod acting;
pub mod anchor;
pub mod atomic;
pub mod behaviour;
pub mod clearing;
pub mod collectible;
pub mod collector;
pub mod destruction;
pub mod destructor;
pub mod domain;
pub mod epoch;
pub mod extent;
pub mod guard;
pub mod handles;
pub mod heap;
pub mod instances;
pub mod laws;
pub mod model;
pub mod owned;
pub mod ownership;
pub mod progress;
pub mod protection;
pub mod ptr;
pub mod reclamation;
pub mod ref_counted;
pub mod representation;
pub mod scanning;
pub mod shared;
pub mod steps;
pub mod tag;
pub mod validity;

pub use atomic::{Atomic, AtomicOwned, AtomicShared};
pub use domain::Domain;
pub use epoch::Epoch;
pub use guard::Guard;
pub use owned::Owned;
pub use ptr::Ptr;
pub use shared::Shared;
pub use tag::Tag;

use destructor::Destructor;
use model::Payload;
use vstd::prelude::*;

verus! {

/// Prepares a garbage collector for the current thread.
///
/// This method is useful in an environment where heap memory allocation is strictly controlled.
/// [`Guard::new`] will never need memory afterwards in the current thread until [`suspend`] is
/// called.
///
/// # Errors
///
/// See [`Guard::new`].
pub fn prepare<T, F, D: Destructor<T, F>>(
    domain: &mut Domain<T, F>,
    thread: usize,
    destructor: &mut D,
) -> (result: Result<(), Vec<Payload<T, F>>>)
    requires
        old(domain).wf(),
        old(domain).guardable(thread),
    ensures
        final(domain).wf(),
        ({
            let c = final(domain).local(thread);
            let started = old(domain)@.started(thread, c);
            &&& c != 0
            &&& c % 4 == 0
            &&& old(domain).local(thread) == 0 ==> !old(domain)@.occupied(c)
            &&& old(domain).local(thread) != 0 ==> c == old(domain).local(thread)
            &&& result is Ok ==> exists|guarded: model::Model<T, F>| #[trigger]
                started.opened(
                    guarded,
                    c,
                    true,
                    old(destructor).log(),
                    final(destructor).log(),
                ) && final(domain)@ == guarded.end_guard(c, old(domain)@.tokens)
            &&& result matches Err(rest) ==> started.foiled(
                final(domain)@,
                c,
                old(destructor).log(),
                final(destructor).log(),
                rest@,
            )
            &&& final(domain)@.collectors[c].num_readers == if old(domain).local(thread) == 0 {
                0
            } else {
                old(domain)@.collectors[c].num_readers
            }
            &&& !started.reclaims(c, true) || old(destructor).quiet() ==> result is Ok
            &&& old(destructor).quiet() ==> exists|guarded: model::Model<T, F>| #[trigger]
                started.new_guard(c, true).alike(guarded) && guarded.dropped
                    == old(domain)@.dropped && final(domain)@ == guarded.end_guard(
                    c,
                    old(domain)@.tokens,
                )
        }),
        result is Ok == (final(destructor).failures() == old(destructor).failures()),
        final(destructor).failures() <= old(destructor).failures() + 1,
        result is Err ==> final(destructor).faulted(),
        old(domain)@.honours(final(domain)@, old(destructor).estate()),
        old(domain)@.inherits(old(destructor).estate(), final(destructor).estate()),
        final(destructor).remaining() <= old(destructor).remaining(),
{
    let ghost before = domain@;
    let ghost estate = destructor.estate();
    let guard = match Guard::new(domain, thread, destructor) {
        Ok(guard) => guard,
        Err(rest) => {
            return Err(rest);
        },
    };
    let ghost mid = domain@;
    let ghost token = guard.token@;
    proof {
        mid.lemma_guard(guard.collector_ptr, token);
        assert(mid.occupied(guard.collector_ptr));
    }
    guard.drop(domain);
    proof {
        before.lemma_honours_fresh(mid, domain@, token, estate);
    }
    Ok(())
}

/// Suspends the garbage collector of the current thread.
///
/// It returns `false` if there is an active [`Guard`] in the thread. Otherwise, it passes all its
/// retired instances to a free flowing garbage container that can be cleaned up by other threads.
#[must_use]
pub fn suspend<T, F>(domain: &mut Domain<T, F>, thread: usize) -> (suspended: bool)
    requires
        old(domain).wf(),
        old(domain).rests(thread),
    ensures
        final(domain).wf(),
        suspended == (old(domain).local(thread) == 0 || old(domain)@.collectors[old(domain).local(
            thread,
        )].num_readers == 0),
        final(domain)@ == old(domain)@.pass_garbage(thread as int),
        old(domain)@.honours(final(domain)@, Set::empty()),
        final(domain).room() == old(domain).room(),
{
    collector::Collector::pass_garbage(domain, thread)
}

} // verus!

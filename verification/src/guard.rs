use crate::collectible::{DeferredClosure, Link};
use crate::collector::Collector;
use crate::destructor::Destructor;
use crate::domain::Domain;
use crate::epoch;
use crate::model::{Model, Payload};
use crate::Epoch;
use vstd::prelude::*;

verus! {

/// [`Guard`] allows the user to read [`AtomicShared`](super::AtomicShared) and keeps the
/// underlying instance pinned to the thread.
///
/// [`Guard`] internally prevents the global epoch value from passing through the value
/// announced by the current thread, thus keeping reachable instances in the thread from being
/// garbage collected.
pub struct Guard {
    /// The collector of the thread.
    pub collector_ptr: usize,
    /// Identifies the guard.
    pub token: Ghost<nat>,
    /// Identifies the period in which the thread has been reading without interruption.
    pub session: Ghost<nat>,
}

impl Guard {
    /// The guard has not been dropped.
    pub open spec fn valid<T, F>(self, model: Model<T, F>) -> bool {
        &&& model.guarded(self.collector_ptr, self.token@)
        &&& model.collectors[self.collector_ptr].session == self.session@
        &&& model.usable(self.collector_ptr, self.token@)
    }

    /// Creates a new [`Guard`].
    ///
    /// If the thread has no other, and there is a new epoch, what nobody can read any more is
    /// reclaimed, and destroyed.
    ///
    /// # Errors
    ///
    /// If a destructor fails, there is no new guard, and what has not been reclaimed yet is kept. Of
    /// what was being destroyed, the rest is given back: it has been reclaimed, and nobody else
    /// destroys it.
    pub fn new<T, F, D: Destructor<T, F>>(
        domain: &mut Domain<T, F>,
        thread: usize,
        destructor: &mut D,
    ) -> (result: Result<Self, Vec<Payload<T, F>>>)
        requires
            old(domain).wf(),
            old(domain).guardable(thread),
        ensures
            final(domain).wf(),
            ({
                let c = final(domain).local(thread);
                let started = old(domain)@.started(thread, c);
                &&& c != 0
                &&& c % 4 == 0
                &&& old(domain).local(thread) == 0 ==> !old(domain)@.occupied(c)
                &&& old(domain).local(thread) != 0 ==> c == old(domain).local(thread)
                &&& result matches Ok(guard) ==> {
                    &&& guard.valid(final(domain)@)
                    &&& guard.collector_ptr == c
                    &&& guard.token@ == old(domain)@.tokens
                    &&& started.opened(
                        final(domain)@,
                        c,
                        true,
                        old(destructor).log(),
                        final(destructor).log(),
                    )
                    &&& final(domain)@.epoch == old(domain)@.epoch
                    &&& final(domain)@.collectors[c].num_readers == if old(domain).local(thread)
                        == 0 {
                        1
                    } else {
                        old(domain)@.collectors[c].num_readers + 1
                    }
                }
                &&& result matches Err(rest) ==> {
                    &&& started.foiled(
                        final(domain)@,
                        c,
                        old(destructor).log(),
                        final(destructor).log(),
                        rest@,
                    )
                    &&& final(domain)@.collectors[c].num_readers == 0
                }
                &&& !started.reclaims(c, true) ==> {
                    &&& result is Ok
                    &&& *final(destructor) == *old(destructor)
                }
                &&& old(destructor).quiet() ==> {
                    &&& result is Ok
                    &&& final(destructor).quiet()
                    &&& started.new_guard(c, true).alike(final(domain)@)
                    &&& old(domain)@.leaves(final(domain)@)
                }
            }),
            result is Ok == (final(destructor).failures() == old(destructor).failures()),
            final(destructor).failures() <= old(destructor).failures() + 1,
            result is Err ==> final(destructor).faulted(),
            final(domain)@.dropped == old(domain)@.dropped,
            old(domain)@.honours(final(domain)@, old(destructor).estate()),
            old(domain)@.inherits(old(destructor).estate(), final(destructor).estate()),
            result is Ok ==> final(domain)@.tokens + final(destructor).remaining()
                <= old(domain)@.tokens + old(destructor).remaining() + 1,
            final(destructor).remaining() <= old(destructor).remaining(),
    {
        let ghost before = domain@;
        let collector_ptr: usize = Collector::current(domain, thread);
        let ghost mid = domain@;
        proof {
            before.lemma_current(thread as int, collector_ptr);
            mid.lemma_respects_new_guard(collector_ptr, true);
        }
        let ghost estate = destructor.estate();
        let result = Collector::new_guard(domain, thread, collector_ptr, true, destructor);
        proof {
            mid.lemma_settles(domain@, collector_ptr, estate);
            mid.lemma_honours(domain@, collector_ptr, estate);
            before.lemma_honours_more(mid, estate);
            before.lemma_honours_transitive(mid, domain@, estate);
        }
        match result {
            Ok(()) => Ok(
                Guard {
                    collector_ptr,
                    token: Ghost(before.tokens),
                    session: Ghost(domain@.collectors[collector_ptr].session),
                },
            ),
            Err(rest) => Err(rest),
        }
    }

    /// Creates a new [`Guard`] for dropping an instance in the supplied [`Collector`].
    pub fn new_for_drop<T, F>(domain: &mut Domain<T, F>, collector_ptr: usize) -> (guard: Self)
        requires
            old(domain).wf(),
            old(domain)@.poised(collector_ptr),
            old(domain)@.collectors[collector_ptr].num_readers < u32::MAX,
        ensures
            final(domain).wf(),
            guard.valid(final(domain)@),
            guard.collector_ptr == collector_ptr,
            guard.token@ == old(domain)@.tokens,
            final(domain)@ == old(domain)@.new_guard(collector_ptr, false),
            old(domain)@.honours(final(domain)@, Set::empty()),
    {
        let ghost before = domain@;
        proof {
            before.lemma_respects_new_guard(collector_ptr, false);
        }
        let (guard, _) = Collector::open_guard(domain, collector_ptr);
        proof {
            before.lemma_settles(domain@, collector_ptr, Set::empty());
            before.lemma_honours(domain@, collector_ptr, Set::empty());
        }
        guard
    }

    /// Returns the epoch in which the current thread lives.
    ///
    /// This method can be used to check whether a retired memory region is potentially reachable or
    /// not. A chunk of memory retired in a witnessed [`Epoch`] can be deallocated after the thread
    /// has observed three new epochs. For instance, if the witnessed epoch value is `1` in the
    /// current thread where the global epoch value is `2`, and an instance is retired in the same
    /// thread, the instance can be dropped when the thread witnesses `0` which is three epochs away
    /// from `1`.
    ///
    /// In other words, there can be potential readers of the memory chunk until the current thread
    /// witnesses the previous epoch. In the above example, the global epoch can be in `2`
    /// while the current thread has only witnessed `1`, and therefore there can a reader of the
    /// memory chunk in another thread in epoch `2`. The reader can survive until the global epoch
    /// reaches `0` again, because the thread being in `2` prevents the global epoch from reaching
    /// `0`.
    #[must_use]
    pub fn epoch<T, F>(&self, domain: &Domain<T, F>) -> (epoch: Epoch)
        requires
            domain.wf(),
            self.valid(domain@),
        ensures
            epoch.0 == epoch::epoch_word(domain@.epoch),
            domain@.collectors[self.collector_ptr].seen <= domain@.epoch
                <= domain@.collectors[self.collector_ptr].seen + 1,
    {
        proof {
            domain@.lemma_guard(self.collector_ptr, self.token@);
        }
        Collector::current_epoch(domain)
    }

    /// Defers dropping of the supplied instance, or execution of the supplied closure.
    ///
    /// It takes place after every [`Guard`] at the moment when the method was invoked is dropped.
    pub fn defer<T, F>(&self, domain: &mut Domain<T, F>, collectible: Payload<T, F>) -> (
    instance_ptr: Ghost<usize>)
        requires
            old(domain).wf(),
            old(domain).room(),
            self.valid(old(domain)@),
            collectible matches Payload::Closure(closure) ==> closure.link == (Link {
                ref_cnt: 0,
                ptr: 0,
            }),
        ensures
            final(domain).wf(),
            !old(domain)@.occupied(instance_ptr@),
            instance_ptr@ != 0,
            final(domain)@ == old(domain)@.defer(self.collector_ptr, instance_ptr@, collectible),
            old(domain)@.honours(final(domain)@, Set::empty()),
    {
        let ghost before = domain@;
        let instance_ptr: usize = domain.put(collectible);
        let ghost mid = domain@;
        proof {
            before.lemma_guard(self.collector_ptr, self.token@);
            mid.lemma_guard(self.collector_ptr, self.token@);
        }
        self.collect(domain, instance_ptr);
        proof {
            before.lemma_honours_transitive(mid, domain@, Set::empty());
        }
        Ghost(instance_ptr)
    }

    /// Executes the supplied closure at a later point of time.
    ///
    /// It is guaranteed that the closure will be executed after every [`Guard`] at the moment when
    /// the method was invoked is dropped, however it is totally non-deterministic when exactly the
    /// closure will be executed.
    pub fn defer_execute<T, F: FnOnce()>(&self, domain: &mut Domain<T, F>, f: F) -> (
    instance_ptr: Ghost<usize>)
        requires
            old(domain).wf(),
            old(domain).room(),
            self.valid(old(domain)@),
        ensures
            final(domain).wf(),
            !old(domain)@.occupied(instance_ptr@),
            instance_ptr@ != 0,
            final(domain)@ == old(domain)@.defer(
                self.collector_ptr,
                instance_ptr@,
                Payload::Closure(DeferredClosure { f: Some(f), link: Link { ref_cnt: 0, ptr: 0 } }),
            ),
            old(domain)@.honours(final(domain)@, Set::empty()),
    {
        self.defer(domain, Payload::Closure(DeferredClosure::new(f)))
    }

    /// Reclaims the supplied instance.
    ///
    /// Nothing happens if the pointer is null.
    pub fn collect<T, F>(&self, domain: &mut Domain<T, F>, instance_ptr: usize)
        requires
            old(domain).wf(),
            self.valid(old(domain)@),
            instance_ptr != 0 ==> {
                &&& old(domain)@.instances.contains_key(instance_ptr)
                &&& old(domain)@.instances[instance_ptr].retirement is None
                &&& old(domain)@.instances[instance_ptr].refs.len() == 0
            },
        ensures
            final(domain).wf(),
            instance_ptr == 0 ==> *final(domain) == *old(domain),
            instance_ptr != 0 ==> final(domain)@ == old(domain)@.retire(
                self.collector_ptr,
                instance_ptr,
            ),
            old(domain)@.honours(final(domain)@, Set::empty()),
            final(domain).room() == old(domain).room(),
    {
        let ghost before = domain@;
        proof {
            before.lemma_guard(self.collector_ptr, self.token@);
            before.lemma_respects_words(before, 0);
            before.lemma_spares_self();
            if instance_ptr != 0 {
                assert(before.occupied(instance_ptr));
                before.lemma_respects_retire(self.collector_ptr, instance_ptr);
            }
        }
        Collector::collect(domain, self.collector_ptr, instance_ptr);
        proof {
            if instance_ptr != 0 {
                before.lemma_settles(domain@, self.collector_ptr, Set::empty());
                before.lemma_honours(domain@, self.collector_ptr, Set::empty());
            } else {
                before.lemma_honours(domain@, 0, Set::empty());
            }
        }
    }

    /// Forces the [`Guard`] to try to start a new epoch when it is dropped.
    pub fn accelerate<T, F>(&self, domain: &mut Domain<T, F>)
        requires
            old(domain).wf(),
            self.valid(old(domain)@),
        ensures
            final(domain).wf(),
            final(domain)@ == old(domain)@.accelerate(self.collector_ptr),
            old(domain)@.honours(final(domain)@, Set::empty()),
            final(domain).room() == old(domain).room(),
    {
        let ghost before = domain@;
        let ghost c = self.collector_ptr;
        proof {
            before.lemma_guard(c, self.token@);
        }
        Collector::accelerate(domain, self.collector_ptr);
        proof {
            let marked = before.mark();
            before.lemma_respects_words(marked, c);
            assert(marked.registered(c));
            marked.lemma_respects_with(c, domain@.collectors[c], marked.tokens, Set::empty());
            before.lemma_respects_transitive(marked, domain@, c, Set::empty());
            assert(domain@.registered(c));
            before.lemma_settles(domain@, c, Set::empty());
            before.lemma_honours(domain@, c, Set::empty());
        }
    }

    /// Drops the [`Guard`].
    pub fn drop<T, F>(self, domain: &mut Domain<T, F>)
        requires
            old(domain).wf(),
            self.valid(old(domain)@),
        ensures
            final(domain).wf(),
            final(domain)@ == old(domain)@.end_guard(self.collector_ptr, self.token@),
            final(domain)@.locals == old(domain)@.locals,
            final(domain)@.instances == old(domain)@.instances,
            final(domain)@.collectors[self.collector_ptr].num_readers
                == old(domain)@.collectors[self.collector_ptr].num_readers - 1,
            final(domain)@.collectors[self.collector_ptr].inactive == (
            old(domain)@.collectors[self.collector_ptr].num_readers == 1),
            old(domain)@.honours(final(domain)@, set![self.token@]),
            final(domain).room() == old(domain).room(),
    {
        let ghost before = domain@;
        let ghost c = self.collector_ptr;
        let ghost guard = self.token@;
        proof {
            before.lemma_guard(c, guard);
            before.lemma_respects_end_guard(c, guard);
        }
        Collector::end_guard(domain, self);
        proof {
            before.lemma_settles(domain@, c, set![guard]);
            before.lemma_honours(domain@, c, set![guard]);
        }
    }
}

} // verus!

use crate::domain::Domain;
use crate::model::{Model, Payload};
use vstd::prelude::*;

verus! {

/// A record of what has been destroyed.
pub type Log<T, F> = Seq<Payload<T, F>>;

/// [`Destructor`] drops instances that have been reclaimed, and executes closures.
///
/// A destructor may create instances, deal with strong references, and retire instances in its
/// thread. It may fail.
pub trait Destructor<T, F>: Sized {
    /// What has been destroyed, the earliest first.
    ///
    /// This is never computed. Where nothing is proved of a destructor, it may be unreachable.
    spec fn log(&self) -> Log<T, F>;

    /// How often destructors have failed.
    open spec fn failures(&self) -> nat {
        0
    }

    /// The destructor that was executed last has failed.
    open spec fn faulted(&self) -> bool {
        false
    }

    /// The strong references that destructors may drop.
    open spec fn estate(&self) -> Set<nat> {
        Set::empty()
    }

    /// The number of instances that destructors create or retire from now on, and of strong
    /// references that they add, does not exceed this.
    open spec fn remaining(&self) -> nat {
        0
    }

    /// Destructors neither fail nor make use of the domain.
    open spec fn quiet(&self) -> bool {
        false
    }

    /// Drops an instance, or executes a closure.
    ///
    /// Returns `false` if this fails.
    fn destroy(&mut self, domain: &mut Domain<T, F>, thread: usize, payload: Payload<T, F>) -> (done:
        bool)
        requires
            old(domain).wf(),
            old(domain).attended(thread),
        ensures
            final(domain).wf(),
            old(domain)@.acts(final(domain)@, old(domain).local(thread)),
            old(domain)@.respects(final(domain)@, old(domain).local(thread), old(self).estate()),
            final(domain)@.dropped == old(domain)@.dropped,
            final(self).log() == old(self).log().push(payload),
            final(self).failures() == old(self).failures() + (if done {
                0nat
            } else {
                1nat
            }),
            final(self).faulted() == !done,
            old(domain)@.inherits(old(self).estate(), final(self).estate()),
            final(domain)@.tokens + final(self).remaining() <= old(domain)@.tokens + old(
                self,
            ).remaining(),
            old(self).quiet() ==> done && final(self).quiet() && final(domain)@ == old(domain)@,
    ;
}

/// [`Outbox`] keeps what is to be destroyed for later.
pub struct Outbox<T, F> {
    /// What is to be destroyed, the earliest first.
    pub payloads: Vec<Payload<T, F>>,
}

impl<T, F> Outbox<T, F> {
    /// Creates an empty [`Outbox`].
    pub fn new() -> (outbox: Self)
        ensures
            outbox.payloads@ == Seq::<Payload<T, F>>::empty(),
    {
        Outbox { payloads: Vec::new() }
    }
}

impl<T, F> Destructor<T, F> for Outbox<T, F> {
    open spec fn log(&self) -> Log<T, F> {
        self.payloads@
    }

    open spec fn failures(&self) -> nat {
        0
    }

    open spec fn faulted(&self) -> bool {
        false
    }

    open spec fn estate(&self) -> Set<nat> {
        Set::empty()
    }

    open spec fn remaining(&self) -> nat {
        0
    }

    open spec fn quiet(&self) -> bool {
        true
    }

    fn destroy(&mut self, domain: &mut Domain<T, F>, thread: usize, payload: Payload<T, F>) -> (done:
        bool) {
        proof {
            domain@.lemma_acts_alike(domain@, domain.local(thread));
            domain@.lemma_respects_words(domain@, domain.local(thread));
        }
        self.payloads.push(payload);
        true
    }
}

/// Turns a list around.
fn reversed<A>(list: Vec<A>) -> (result: Vec<A>)
    ensures
        result@ == list@.reverse(),
{
    let ghost whole = list@;
    let mut list = list;
    let mut result: Vec<A> = Vec::new();
    while list.len() > 0
        invariant
            list@.is_prefix_of(whole),
            result@ == whole.skip(list@.len() as int).reverse(),
        decreases list.len(),
    {
        let ghost before = list@;
        let last = list.pop();
        proof {
            assert(whole[before.len() - 1] == before.last());
        }
        if let Some(item) = last {
            result.push(item);
        }
        assert(result@ =~= whole.skip(list@.len() as int).reverse());
    }
    assert(whole.skip(0) =~= whole);
    result
}

impl<T, F> Domain<T, F> {
    /// The thread has a collector, and instances can be retired into it.
    pub open spec fn attended(self, thread: usize) -> bool {
        &&& thread < self@.locals.len()
        &&& self.local(thread) != 0
        &&& self@.collectors[self.local(thread)].pending is None
    }

    /// Takes what has been taken off the collectors to be destroyed after the first `count`.
    pub fn take_dropped_after(&mut self, count: usize) -> (dropped: Vec<Payload<T, F>>)
        requires
            old(self).wf(),
            count <= old(self)@.dropped.len(),
        ensures
            final(self).wf(),
            dropped@ == old(self)@.dropped.skip(count as int),
            final(self)@ == (Model { dropped: old(self)@.dropped.take(count as int), ..old(self)@ }),
            old(self)@.spares(final(self)@),
            final(self).room() == old(self).room(),
    {
        let ghost before = *self;
        let dropped = self.dropped.split_off(count);
        proof {
            self.model@ = Model { dropped: before@.dropped.take(count as int), ..before@ };
            assert(self.dropped@ =~= before@.dropped.take(count as int));
            assert(dropped@ =~= before@.dropped.skip(count as int));
            before@.lemma_lock_frame(self@);
            before@.lemma_same_nodes(self@);
            before.lemma_chain_frame(*self);
            before@.lemma_spares_simple(self@);
        }
        dropped
    }

    /// Destroys what has been reclaimed, the first item first.
    ///
    /// If that fails, the rest is given back.
    pub fn hand_over<D: Destructor<T, F>>(
        &mut self,
        thread: usize,
        payloads: Vec<Payload<T, F>>,
        destructor: &mut D,
    ) -> (failed: Option<Vec<Payload<T, F>>>)
        requires
            old(self).wf(),
            old(self).attended(thread),
        ensures
            final(self).wf(),
            final(self).attended(thread),
            old(self)@.acts(final(self)@, old(self).local(thread)),
            old(self)@.respects(
                final(self)@,
                old(self).local(thread),
                old(destructor).estate(),
            ),
            final(self)@.dropped == old(self)@.dropped,
            failed is None == (final(destructor).failures() == old(destructor).failures()),
            final(destructor).failures() <= old(destructor).failures() + 1,
            failed is Some ==> final(destructor).faulted(),
            failed is None ==> final(destructor).log() == old(destructor).log() + payloads@,
            failed matches Some(rest) ==> {
                &&& final(destructor).log() + rest@ == old(destructor).log() + payloads@
                &&& final(destructor).log().len() > old(destructor).log().len()
            },
            old(self)@.inherits(old(destructor).estate(), final(destructor).estate()),
            final(self)@.tokens + final(destructor).remaining() <= old(self)@.tokens + old(
                destructor,
            ).remaining(),
            old(destructor).quiet() ==> {
                &&& failed is None
                &&& final(destructor).quiet()
                &&& final(self)@ == old(self)@
            },
    {
        let ghost before = self@;
        let ghost c = before.locals[thread as int];
        let ghost total = destructor.log() + payloads@;
        let ghost estate = destructor.estate();
        let mut pending = reversed(payloads);
        proof {
            before.lemma_acts_alike(before, c);
            before.lemma_respects_words(before, c);
            before.lemma_respects_more(before, c, estate);
            assert(pending@.reverse() =~= payloads@);
        }
        while pending.len() > 0
            invariant
                self.wf(),
                self.attended(thread),
                before == old(self)@,
                before.collectors.contains_key(c),
                c == before.locals[thread as int],
                self@.locals == before.locals,
                before.acts(self@, c),
                before.inv(),
                before.respects(self@, c, estate),
                estate == old(destructor).estate(),
                before.inherits(estate, destructor.estate()),
                self@.dropped == before.dropped,
                total == old(destructor).log() + payloads@,
                destructor.log() + pending@.reverse() == total,
                old(destructor).log().len() <= destructor.log().len(),
                destructor.failures() == old(destructor).failures(),
                self@.tokens + destructor.remaining() <= before.tokens + old(
                    destructor,
                ).remaining(),
                old(destructor).quiet() ==> destructor.quiet() && self@ == before,
            decreases pending.len(),
        {
            let ghost mid = self@;
            let ghost log = destructor.log();
            let ghost list = pending@;
            let ghost share = destructor.estate();
            if let Some(payload) = pending.pop() {
                let done = destructor.destroy(self, thread, payload);
                proof {
                    assert(mid.collectors.contains_key(c));
                    before.lemma_acts_transitive(mid, self@, c);
                    before.lemma_respects_inherited(mid, self@, c, estate, share);
                    assert(list.reverse()[0] == payload);
                    assert(destructor.log() + pending@.reverse() =~= log + list.reverse());
                }
                if !done {
                    return Some(reversed(pending));
                }
            }
        }
        assert(pending@.reverse() =~= Seq::empty());
        assert(destructor.log() =~= total);
        None
    }
}

} // verus!

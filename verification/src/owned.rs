use crate::domain::Domain;
use crate::model::Model;
use crate::ptr::Ptr;
use crate::ref_counted::RefCounted;
use crate::tag;
use crate::Guard;
use std::marker::PhantomData;
use vstd::prelude::*;

verus! {

/// [`Owned`] uniquely owns an instance.
///
/// The instance is passed to the garbage collector when the [`Owned`] is dropped.
pub struct Owned<T> {
    /// The address of the instance.
    pub instance_ptr: usize,
    /// Identifies the strong reference.
    pub token: Ghost<nat>,
    /// The instance is of this type.
    pub marker: PhantomData<T>,
}

impl<T> Owned<T> {
    /// The [`Owned`] has not been dropped.
    pub open spec fn valid<F>(self, model: Model<T, F>) -> bool {
        &&& model.owned(self.instance_ptr, self.token@)
        &&& !model.instances[self.instance_ptr].shared
    }

    /// The address of the instance.
    pub open spec fn target(self) -> usize {
        tag::untagged(self.instance_ptr)
    }

    /// Creates a new instance of [`Owned`].
    #[must_use]
    pub fn new<F>(domain: &mut Domain<T, F>, instance: T) -> (owned: Self)
        requires
            old(domain).wf(),
            old(domain).room(),
        ensures
            final(domain).wf(),
            owned.valid(final(domain)@),
            owned.token@ == old(domain)@.tokens,
            !old(domain)@.occupied(owned.instance_ptr),
            final(domain)@ == old(domain)@.create(owned.instance_ptr, instance, false),
            old(domain)@.honours(final(domain)@, Set::empty()),
    {
        let ghost token = domain@.tokens;
        let instance_ptr: usize = domain.create(RefCounted::new_unique(instance), false);
        Owned { instance_ptr, token: Ghost(token), marker: PhantomData }
    }

    /// Returns a [`Ptr`] to the instance that may live as long as the supplied [`Guard`].
    #[must_use]
    pub fn get_guarded_ptr<'g>(&self, guard: &'g Guard) -> (ptr: Ptr<'g, T>)
        ensures
            ptr.instance_ptr == self.instance_ptr,
            ptr.collector@ == guard.collector_ptr,
            ptr.session == guard.session,
    {
        Ptr {
            instance_ptr: self.instance_ptr,
            collector: Ghost(guard.collector_ptr),
            session: guard.session,
            marker: PhantomData,
        }
    }

    /// Returns the address of the instance.
    #[must_use]
    pub fn underlying_ptr(&self) -> (instance_ptr: usize)
        ensures
            instance_ptr == self.instance_ptr,
    {
        self.instance_ptr
    }

    /// Returns a reference to the instance.
    pub fn deref<'d, F>(&self, domain: &'d Domain<T, F>) -> (instance: &'d T)
        requires
            domain.wf(),
            self.valid(domain@),
        ensures
            *instance == domain@.value(self.instance_ptr),
    {
        proof {
            domain@.lemma_owned(self.instance_ptr, self.token@);
        }
        domain.value(self.instance_ptr)
    }

    /// Drops the [`Owned`]: the instance is passed to the garbage collector.
    pub fn drop<F>(self, domain: &mut Domain<T, F>, thread: usize) -> (collector_ptr: Ghost<usize>)
        requires
            old(domain).wf(),
            old(domain).accepts(thread),
            self.valid(old(domain)@),
        ensures
            final(domain).wf(),
            collector_ptr@ == final(domain).local(thread),
            old(domain).local(thread) == 0 ==> !old(domain)@.occupied(collector_ptr@),
            final(domain)@ == old(domain)@.unshare(self.instance_ptr, self.token@).started(thread, collector_ptr@).retire(collector_ptr@, self.instance_ptr),
            old(domain).rests(thread) ==> old(domain)@.honours(
                final(domain)@,
                set![self.token@],
            ),
            old(domain)@.spares_retired(final(domain)@),
    {
        let ghost before = domain@;
        proof {
            before.lemma_owned(self.instance_ptr, self.token@);
        }
        domain.disown(self.instance_ptr, self.token);
        let ghost mid = domain@;
        let collector_ptr = RefCounted::pass_to_collector(domain, thread, self.instance_ptr);
        proof {
            before.lemma_spares_retired_transitive(mid, domain@);
            if before.at_rest(thread as int) {
                assert(mid.at_rest(thread as int));
                mid.lemma_honours_more(domain@, set![self.token@]);
                before.lemma_honours_transitive(mid, domain@, set![self.token@]);
            }
        }
        collector_ptr
    }
}

} // verus!

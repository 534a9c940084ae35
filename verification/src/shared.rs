use crate::domain::Domain;
use crate::model::Model;
use crate::ptr::Ptr;
use crate::ref_counted::RefCounted;
use crate::tag;
use crate::Guard;
use std::marker::PhantomData;
use vstd::prelude::*;

verus! {

/// [`Shared`] is a reference-counted handle to an instance.
///
/// The instance is passed to the garbage collector when the last strong reference is dropped.
pub struct Shared<T> {
    /// The address of the instance.
    pub instance_ptr: usize,
    /// Identifies the strong reference.
    pub token: Ghost<nat>,
    /// The instance is of this type.
    pub marker: PhantomData<T>,
}

impl<T> Shared<T> {
    /// The [`Shared`] has not been dropped.
    pub open spec fn valid<F>(self, model: Model<T, F>) -> bool {
        &&& model.owned(self.instance_ptr, self.token@)
        &&& model.instances[self.instance_ptr].shared
    }

    /// The [`Shared`] is the only strong reference to its instance.
    pub open spec fn last<F>(self, model: Model<T, F>) -> bool {
        model.instances[self.instance_ptr].refs.len() == 1
    }

    /// The address of the instance.
    pub open spec fn target(self) -> usize {
        tag::untagged(self.instance_ptr)
    }

    /// Creates a new instance of [`Shared`].
    #[must_use]
    pub fn new<F>(domain: &mut Domain<T, F>, instance: T) -> (shared: Self)
        requires
            old(domain).wf(),
            old(domain).room(),
        ensures
            final(domain).wf(),
            shared.valid(final(domain)@),
            shared.token@ == old(domain)@.tokens,
            !old(domain)@.occupied(shared.instance_ptr),
            final(domain)@ == old(domain)@.create(shared.instance_ptr, instance, true),
            old(domain)@.honours(final(domain)@, Set::empty()),
    {
        let ghost token = domain@.tokens;
        let instance_ptr: usize = domain.create(RefCounted::new_shared(instance), true);
        Shared { instance_ptr, token: Ghost(token), marker: PhantomData }
    }

    /// Returns a [`Ptr`] to the instance that may live as long as the supplied [`Guard`].
    #[must_use]
    pub fn get_guarded_ptr<'g>(&self, guard: &'g Guard) -> (ptr: Ptr<'g, T>)
        ensures
            ptr.instance_ptr == self.instance_ptr,
            ptr.collector@ == guard.collector_ptr,
            ptr.session == guard.session,
    {
        Ptr {
            instance_ptr: self.instance_ptr,
            collector: Ghost(guard.collector_ptr),
            session: guard.session,
            marker: PhantomData,
        }
    }

    /// Returns the address of the instance.
    #[must_use]
    pub fn underlying_ptr(&self) -> (instance_ptr: usize)
        ensures
            instance_ptr == self.instance_ptr,
    {
        self.instance_ptr
    }

    /// Returns a reference to the instance.
    pub fn deref<'d, F>(&self, domain: &'d Domain<T, F>) -> (instance: &'d T)
        requires
            domain.wf(),
            self.valid(domain@),
        ensures
            *instance == domain@.value(self.instance_ptr),
    {
        proof {
            domain@.lemma_owned(self.instance_ptr, self.token@);
        }
        domain.value(self.instance_ptr)
    }

    /// Adds a strong reference to the instance.
    #[must_use]
    pub fn duplicate<F>(&self, domain: &mut Domain<T, F>) -> (shared: Self)
        requires
            old(domain).wf(),
            self.valid(old(domain)@),
            old(domain)@.shareable(self.instance_ptr),
        ensures
            final(domain).wf(),
            shared.valid(final(domain)@),
            shared.instance_ptr == self.instance_ptr,
            shared.token@ == old(domain)@.tokens,
            final(domain)@ == old(domain)@.share(self.instance_ptr),
            old(domain)@.honours(final(domain)@, Set::empty()),
            final(domain).room() == old(domain).room(),
    {
        let ghost token = domain@.tokens;
        proof {
            domain@.lemma_owned(self.instance_ptr, self.token@);
        }
        domain.share(self.instance_ptr);
        Shared { instance_ptr: self.instance_ptr, token: Ghost(token), marker: PhantomData }
    }

    /// Releases the strong reference by passing `self` to the given [`Guard`].
    ///
    /// Returns `true` if the last reference was released.
    pub fn release<F>(self, domain: &mut Domain<T, F>, guard: &Guard) -> (released: bool)
        requires
            old(domain).wf(),
            guard.valid(old(domain)@),
            self.valid(old(domain)@),
        ensures
            final(domain).wf(),
            released == self.last(old(domain)@),
            !released ==> final(domain)@ == old(domain)@.unshare(self.instance_ptr, self.token@),
            released ==> final(domain)@ == old(domain)@.unshare(
                self.instance_ptr,
                self.token@,
            ).retire(guard.collector_ptr, self.instance_ptr),
            old(domain)@.honours(final(domain)@, set![self.token@]),
            final(domain).room() == old(domain).room(),
    {
        let ghost before = domain@;
        proof {
            before.lemma_owned(self.instance_ptr, self.token@);
            before.lemma_unshare(self.instance_ptr, self.token@);
        }
        let released = domain.unshare(self.instance_ptr, self.token);
        let ghost mid = domain@;
        if released {
            guard.collect(domain, self.instance_ptr);
            proof {
                mid.lemma_honours_more(domain@, set![self.token@]);
                before.lemma_honours_transitive(mid, domain@, set![self.token@]);
            }
        }
        released
    }

    /// Drops the [`Shared`]: the instance is passed to the garbage collector if this is the last
    /// strong reference.
    pub fn drop<F>(self, domain: &mut Domain<T, F>, thread: usize) -> (collector_ptr: Ghost<usize>)
        requires
            old(domain).wf(),
            old(domain).accepts(thread),
            self.valid(old(domain)@),
        ensures
            final(domain).wf(),
            !self.last(old(domain)@) ==> final(domain)@ == old(domain)@.unshare(
                self.instance_ptr,
                self.token@,
            ),
            self.last(old(domain)@) ==> {
                &&& collector_ptr@ == final(domain).local(thread)
                &&& old(domain).local(thread) == 0 ==> !old(domain)@.occupied(
                    collector_ptr@,
                )
                &&& final(domain)@ == old(domain)@.unshare(self.instance_ptr, self.token@).started(thread, collector_ptr@).retire(collector_ptr@, self.instance_ptr)
            },
            old(domain).rests(thread) ==> old(domain)@.honours(
                final(domain)@,
                set![self.token@],
            ),
            old(domain)@.spares_retired(final(domain)@),
    {
        let ghost before = domain@;
        proof {
            before.lemma_owned(self.instance_ptr, self.token@);
            before.lemma_unshare(self.instance_ptr, self.token@);
        }
        let last = domain.unshare(self.instance_ptr, self.token);
        let ghost mid = domain@;
        if last {
            let collector_ptr = RefCounted::pass_to_collector(domain, thread, self.instance_ptr);
            proof {
                before.lemma_spares_retired_transitive(mid, domain@);
                if before.at_rest(thread as int) {
                    assert(mid.at_rest(thread as int));
                    mid.lemma_honours_more(domain@, set![self.token@]);
                    before.lemma_honours_transitive(mid, domain@, set![self.token@]);
                }
            }
            collector_ptr
        } else {
            Ghost(0)
        }
    }
}

} // verus!

use crate::domain::Domain;
use crate::model::Model;
use crate::shared::Shared;
use crate::tag;
use crate::Tag;
use std::marker::PhantomData;
use std::sync::atomic::Ordering;
use vstd::prelude::*;

verus! {

/// [`Ptr`] points to an instance.
pub struct Ptr<'g, T> {
    /// The address of the instance, null if there is none, and a [`Tag`].
    pub instance_ptr: usize,
    /// The collector of the thread that holds the [`Guard`](crate::Guard).
    pub collector: Ghost<usize>,
    /// Identifies the period in which the thread has been reading without interruption.
    pub session: Ghost<nat>,
    /// Keeps the [`Guard`](crate::Guard) from being dropped.
    pub marker: PhantomData<&'g T>,
}

impl<'g, T> Clone for Ptr<'g, T> {
    fn clone(&self) -> (ptr: Self)
        ensures
            ptr == *self,
    {
        *self
    }
}

impl<'g, T> Copy for Ptr<'g, T> {

}

impl<'g, T> Ptr<'g, T> {
    /// The address of the instance.
    pub open spec fn target(self) -> usize {
        tag::untagged(self.instance_ptr)
    }

    /// The instance can be read.
    pub open spec fn valid<F>(self, model: Model<T, F>) -> bool {
        &&& model.pinned(self.collector@)
        &&& model.collectors[self.collector@].session == self.session@
        &&& self.target() != 0 ==> {
            &&& model.protects(self.collector@, self.target())
            &&& model.readable(self.target())
        }
    }

    /// Returns `true` if the [`Ptr`] is null.
    #[must_use]
    pub fn is_null(&self) -> (null: bool)
        ensures
            null == (self.target() == 0),
    {
        Tag::unset_tag(self.instance_ptr) == 0
    }

    /// Tries to create a reference to the underlying instance.
    #[must_use]
    pub fn as_ref<'d, F>(&self, domain: &'d Domain<T, F>) -> (reference: Option<&'d T>)
        requires
            domain.wf(),
            self.valid(domain@),
        ensures
            reference is None == (self.target() == 0),
            reference matches Some(value) ==> *value == domain@.value(self.target()),
    {
        let ptr: usize = Tag::unset_tag(self.instance_ptr);
        if ptr == 0 {
            None
        } else {
            Some(domain.value(ptr))
        }
    }

    /// Returns its [`Tag`].
    #[must_use]
    pub fn tag(&self) -> (tag: Tag)
        ensures
            tag@ == self.instance_ptr % 4,
    {
        Tag::into_tag(self.instance_ptr)
    }

    /// Sets a [`Tag`], overwriting its existing [`Tag`].
    ///
    /// Returns the previous tag value.
    pub fn set_tag(&mut self, tag: Tag) -> (old_tag: Tag)
        ensures
            old_tag@ == old(self).instance_ptr % 4,
            final(self).target() == old(self).target(),
            final(self).instance_ptr == old(self).target() + tag@,
            final(self).collector == old(self).collector,
            final(self).session == old(self).session,
    {
        let old_tag = Tag::into_tag(self.instance_ptr);
        self.instance_ptr = Tag::update_tag(self.instance_ptr, tag);
        old_tag
    }

    /// Tries to convert itself into a [`Shared`].
    ///
    /// It fails if the pointer is null, if the instance is not reference-counted, or if its last
    /// strong reference is gone.
    pub fn get_shared<F>(&self, domain: &mut Domain<T, F>) -> (shared: Option<Shared<T>>)
        requires
            old(domain).wf(),
            self.valid(old(domain)@),
            self.target() != 0 ==> old(domain)@.shareable(self.target()),
        ensures
            final(domain).wf(),
            shared is Some == (self.target() != 0 && old(domain)@.live(self.target())
                && old(domain)@.instances[self.target()].shared),
            shared is None ==> final(domain)@ == old(domain)@,
            shared matches Some(shared) ==> {
                &&& shared.valid(final(domain)@)
                &&& shared.instance_ptr == self.target()
                &&& shared.token@ == old(domain)@.tokens
                &&& final(domain)@ == old(domain)@.share(self.target())
            },
            old(domain)@.honours(final(domain)@, Set::empty()),
            final(domain).room() == old(domain).room(),
    {
        let ghost token = domain@.tokens;
        let ptr: usize = Tag::unset_tag(self.instance_ptr);
        if ptr != 0 && domain.try_share(ptr, Ordering::Acquire) {
            return Some(Shared { instance_ptr: ptr, token: Ghost(token), marker: PhantomData });
        }
        proof {
            domain@.lemma_honours_instances(domain@, Set::empty());
        }
        None
    }

    /// Returns its pointer value.
    #[must_use]
    pub fn as_underlying_ptr(&self) -> (instance_ptr: usize)
        ensures
            instance_ptr == self.instance_ptr,
    {
        self.instance_ptr
    }
}

} // verus!

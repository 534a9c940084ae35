use crate::destructor::Destructor;
use crate::domain::Domain;
use crate::model::{Model, Payload};
use crate::owned::Owned;
use crate::ownership;
use crate::ptr::Ptr;
use crate::ref_counted;
use crate::ref_counted::RefCounted;
use crate::shared::Shared;
use crate::tag;
use crate::{Guard, Tag};
use std::marker::PhantomData;
use std::sync::atomic::Ordering;
use vstd::prelude::*;

verus! {

/// [`AtomicOwned`] owns the underlying instance, and allows users to perform atomic operations
/// on the pointer to it.
pub type AtomicOwned<T> = Atomic<T, ownership::Owned>;

/// [`AtomicShared`] owns the underlying instance, and allows users to perform atomic operations
/// on the pointer to it.
pub type AtomicShared<T> = Atomic<T, ownership::Shared>;

/// [`Atomic`] owns the underlying instance, and allows users to perform atomic operations
/// on the pointer to it.
pub struct Atomic<T, O: ownership::Type> {
    /// The address of the instance, null if there is none, and a [`Tag`].
    pub word: usize,
    /// Identifies the strong reference.
    pub token: Ghost<nat>,
    /// The instance is of this type, and owned in this way.
    pub marker: PhantomData<(T, O)>,
}

/// The word that stands for an address and a tag.
pub open spec fn tagged(address: usize, tag: Tag) -> int {
    address + tag@
}

impl<T, O: ownership::Type> Atomic<T, O> {
    /// The address of the instance.
    pub open spec fn target(self) -> usize {
        tag::untagged(self.word)
    }

    /// The [`Atomic`] has not been dropped.
    pub open spec fn valid<F>(self, model: Model<T, F>) -> bool {
        self.target() != 0 ==> {
            &&& model.owned(self.target(), self.token@)
            &&& model.instances[self.target()].shared == !O::owned()
        }
    }

    /// There is no other strong reference to the instance.
    pub open spec fn last<F>(self, model: Model<T, F>) -> bool {
        model.instances[self.target()].refs.len() == 1
    }

    /// Creates a new [`Atomic`] from an instance of `T`.
    ///
    /// The instance may live as long as the [`Domain`]: the garbage collector does not guarantee
    /// that it is dropped any earlier.
    pub fn new<F>(domain: &mut Domain<T, F>, instance: T) -> (atomic: Self)
        requires
            old(domain).wf(),
            old(domain).room(),
        ensures
            final(domain).wf(),
            atomic.valid(final(domain)@),
            atomic.token@ == old(domain)@.tokens,
            atomic.word != 0,
            atomic.word == atomic.target(),
            !old(domain)@.occupied(atomic.word),
            final(domain)@ == old(domain)@.create(atomic.word, instance, !O::owned()),
            old(domain)@.honours(final(domain)@, Set::empty()),
    {
        let ghost token = domain@.tokens;
        let counted = O::generate_refcounted(instance);
        let word: usize = domain.create(counted, !O::is_owned());
        Atomic { word, token: Ghost(token), marker: PhantomData }
    }

    /// Creates a null [`Atomic`].
    #[must_use]
    pub fn null() -> (atomic: Self)
        ensures
            atomic.word == 0,
    {
        Atomic { word: 0, token: Ghost(0), marker: PhantomData }
    }

    /// Returns `true` if the [`Atomic`] is null.
    #[must_use]
    pub fn is_null(&self, order: Ordering) -> (null: bool)
        requires
            ref_counted::load_order(order),
        ensures
            null == (self.target() == 0),
    {
        Tag::unset_tag(self.word) == 0
    }

    /// Loads a pointer value from the [`Atomic`].
    #[must_use]
    pub fn load<'g>(&self, order: Ordering, guard: &'g Guard) -> (ptr: Ptr<'g, T>)
        requires
            ref_counted::load_order(order),
        ensures
            ptr.instance_ptr == self.word,
            ptr.collector@ == guard.collector_ptr,
            ptr.session == guard.session,
    {
        Ptr {
            instance_ptr: self.word,
            collector: Ghost(guard.collector_ptr),
            session: guard.session,
            marker: PhantomData,
        }
    }

    /// Returns its [`Tag`].
    #[must_use]
    pub fn tag(&self, order: Ordering) -> (tag: Tag)
        requires
            ref_counted::load_order(order),
        ensures
            tag@ == self.word % 4,
    {
        Tag::into_tag(self.word)
    }

    /// Sets a new [`Tag`] if the given condition is met.
    ///
    /// Returns `true` if the new [`Tag`] has been successfully set.
    pub fn update_tag_if(
        &mut self,
        tag: Tag,
        mut condition: impl FnMut(Ptr<T>) -> bool,
        set_order: Ordering,
        fetch_order: Ordering,
    ) -> (updated: bool)
        requires
            ref_counted::load_order(fetch_order),
            forall|ptr: Ptr<T>| ptr.instance_ptr == old(self).word ==> #[trigger] condition.requires(
                (ptr,),
            ),
        ensures
            exists|ptr: Ptr<T>|
                ptr.instance_ptr == old(self).word && #[trigger] condition.ensures((ptr,), updated),
            updated ==> final(self).word == tagged(old(self).target(), tag),
            !updated ==> final(self).word == old(self).word,
            final(self).token == old(self).token,
    {
        let ptr = Ptr {
            instance_ptr: self.word,
            collector: Ghost(0),
            session: Ghost(0),
            marker: PhantomData,
        };
        if condition(ptr) {
            self.word = Tag::update_tag(self.word, tag);
            true
        } else {
            false
        }
    }

    /// Drops the [`Atomic`]: the instance is passed to the garbage collector unless there is
    /// another strong reference.
    pub fn drop<F>(self, domain: &mut Domain<T, F>, thread: usize) -> (collector_ptr: Ghost<usize>)
        requires
            old(domain).wf(),
            self.valid(old(domain)@),
            self.target() != 0 ==> old(domain).accepts(thread),
        ensures
            final(domain).wf(),
            self.target() == 0 ==> *final(domain) == *old(domain),
            self.target() != 0 && !self.last(old(domain)@) ==> final(domain)@
                == old(domain)@.unshare(self.target(), self.token@),
            self.target() != 0 && self.last(old(domain)@) ==> {
                &&& collector_ptr@ == final(domain).local(thread)
                &&& old(domain).local(thread) == 0 ==> !old(domain)@.occupied(collector_ptr@)
                &&& final(domain)@ == old(domain)@.unshare(self.target(), self.token@).started(
                    thread,
                    collector_ptr@,
                ).retire(collector_ptr@, self.target())
            },
            self.target() == 0 || old(domain).rests(thread) ==> old(domain)@.honours(
                final(domain)@,
                set![self.token@],
            ),
            old(domain)@.spares_retired(final(domain)@),
    {
        let ghost before = domain@;
        let ghost gone = set![self.token@];
        let ptr: usize = Tag::unset_tag(self.word);
        if ptr == 0 {
            proof {
                before.lemma_honours_instances(before, gone);
            }
            return Ghost(0);
        }
        proof {
            before.lemma_owned(self.target(), self.token@);
            before.lemma_unshare(self.target(), self.token@);
        }
        let last = if O::is_owned() {
            domain.disown(ptr, self.token);
            true
        } else {
            domain.unshare(ptr, self.token)
        };
        let ghost mid = *domain;
        if last {
            let collector_ptr = RefCounted::pass_to_collector(domain, thread, ptr);
            proof {
                before.lemma_spares_retired_transitive(mid@, domain@);
                if mid.rests(thread) {
                    mid@.lemma_honours_more(domain@, gone);
                    before.lemma_honours_transitive(mid@, domain@, gone);
                }
            }
            collector_ptr
        } else {
            Ghost(0)
        }
    }
}

impl<T> AtomicOwned<T> {
    /// The address that an optional [`Owned`] stands for.
    pub open spec fn address_of(owned: Option<Owned<T>>) -> usize {
        match owned {
            Some(owned) => owned.target(),
            None => 0,
        }
    }

    /// The AtomicOwned has taken over `owned`, with the tag.
    pub open spec fn holds(self, owned: Option<Owned<T>>, tag: Tag) -> bool {
        &&& self.word == tagged(Self::address_of(owned), tag)
        &&& owned matches Some(owned) ==> self.token == owned.token
    }

    /// The AtomicOwned has been converted into `owned`.
    pub open spec fn yields(self, owned: Option<Owned<T>>) -> bool {
        &&& owned is None == (self.target() == 0)
        &&& owned matches Some(owned) ==> {
            &&& owned.instance_ptr == self.target()
            &&& owned.token == self.token
        }
    }

    /// Creates a new [`AtomicOwned`] from an [`Owned`] of `T`.
    #[must_use]
    pub fn from(owned: Owned<T>) -> (atomic: Self)
        ensures
            atomic.word == owned.instance_ptr,
            atomic.token == owned.token,
    {
        Atomic { word: owned.underlying_ptr(), token: owned.token, marker: PhantomData }
    }

    /// Returns the instance that the [`AtomicOwned`] holds.
    fn take(&self) -> (owned: Option<Owned<T>>)
        ensures
            self.yields(owned),
    {
        let instance_ptr: usize = Tag::unset_tag(self.word);
        if instance_ptr == 0 {
            None
        } else {
            Some(Owned { instance_ptr, token: self.token, marker: PhantomData })
        }
    }

    /// Makes the [`AtomicOwned`] hold the given value.
    fn hold(&mut self, ptr: Option<Owned<T>>, tag: Tag)
        ensures
            final(self).holds(ptr, tag),
    {
        match ptr {
            Some(owned) => {
                self.word = Tag::update_tag(owned.underlying_ptr(), tag);
                self.token = owned.token;
            },
            None => {
                self.word = Tag::update_tag(0, tag);
            },
        }
    }

    /// Stores the given value into the [`AtomicOwned`] and returns the original value.
    pub fn swap(&mut self, new: (Option<Owned<T>>, Tag), order: Ordering) -> (previous: (
        Option<Owned<T>>,
        Tag,
    ))
        ensures
            final(self).holds(new.0, new.1),
            old(self).yields(previous.0),
            previous.1@ == old(self).word % 4,
    {
        let previous = self.take();
        let tag = Tag::into_tag(self.word);
        self.hold(new.0, new.1);
        (previous, tag)
    }

    /// Stores `new` into the [`AtomicOwned`] if the current value is the same as `current`.
    ///
    /// Returns the previously held value and the updated [`Ptr`].
    ///
    /// # Errors
    ///
    /// Returns `Err` with the supplied [`Owned`] and the current [`Ptr`].
    pub fn compare_exchange<'g>(
        &mut self,
        current: Ptr<'g, T>,
        new: (Option<Owned<T>>, Tag),
        success: Ordering,
        failure: Ordering,
        guard: &'g Guard,
    ) -> (result: Result<(Option<Owned<T>>, Ptr<'g, T>), (Option<Owned<T>>, Ptr<'g, T>)>)
        requires
            ref_counted::load_order(failure),
        ensures
            result is Ok == (old(self).word == current.instance_ptr),
            result matches Ok((previous, ptr)) ==> {
                &&& final(self).holds(new.0, new.1)
                &&& old(self).yields(previous)
                &&& ptr.instance_ptr == final(self).word
                &&& ptr.collector@ == guard.collector_ptr
                &&& ptr.session == guard.session
            },
            result matches Err((given, ptr)) ==> {
                &&& *final(self) == *old(self)
                &&& given == new.0
                &&& ptr.instance_ptr == old(self).word
                &&& ptr.collector@ == guard.collector_ptr
                &&& ptr.session == guard.session
            },
    {
        self.compare_exchange_weak(current, new, success, failure, guard, false)
    }

    /// Stores `new` into the [`AtomicOwned`] if the current value is the same as `current`.
    ///
    /// This method is allowed to spuriously fail even when the comparison succeeds: it does so if
    /// the processor takes it to be `spurious`.
    ///
    /// Returns the previously held value and the updated [`Ptr`].
    ///
    /// # Errors
    ///
    /// Returns `Err` with the supplied [`Owned`] and the current [`Ptr`].
    pub fn compare_exchange_weak<'g>(
        &mut self,
        current: Ptr<'g, T>,
        new: (Option<Owned<T>>, Tag),
        success: Ordering,
        failure: Ordering,
        guard: &'g Guard,
        spurious: bool,
    ) -> (result: Result<(Option<Owned<T>>, Ptr<'g, T>), (Option<Owned<T>>, Ptr<'g, T>)>)
        requires
            ref_counted::load_order(failure),
        ensures
            result is Ok == (old(self).word == current.instance_ptr && !spurious),
            result matches Ok((previous, ptr)) ==> {
                &&& final(self).holds(new.0, new.1)
                &&& old(self).yields(previous)
                &&& ptr.instance_ptr == final(self).word
                &&& ptr.collector@ == guard.collector_ptr
                &&& ptr.session == guard.session
            },
            result matches Err((given, ptr)) ==> {
                &&& *final(self) == *old(self)
                &&& given == new.0
                &&& ptr.instance_ptr == old(self).word
                &&& ptr.collector@ == guard.collector_ptr
                &&& ptr.session == guard.session
            },
    {
        if self.word == current.as_underlying_ptr() && !spurious {
            let previous = self.take();
            self.hold(new.0, new.1);
            Ok((previous, self.load(Ordering::Relaxed, guard)))
        } else {
            Err((new.0, self.load(Ordering::Relaxed, guard)))
        }
    }

    /// Converts `self` into an [`Owned`].
    ///
    /// Returns `None` if `self` did not own an instance.
    #[must_use]
    pub fn into_owned(self, order: Ordering) -> (owned: Option<Owned<T>>)
        ensures
            self.yields(owned),
    {
        self.take()
    }
}

impl<T> AtomicShared<T> {
    /// The address that an optional [`Shared`] stands for.
    pub open spec fn address_of(shared: Option<Shared<T>>) -> usize {
        match shared {
            Some(shared) => shared.target(),
            None => 0,
        }
    }

    /// The AtomicShared has taken over `shared`, with the tag.
    pub open spec fn holds(self, shared: Option<Shared<T>>, tag: Tag) -> bool {
        &&& self.word == tagged(Self::address_of(shared), tag)
        &&& shared matches Some(shared) ==> self.token == shared.token
    }

    /// The AtomicShared has been converted into `shared`.
    pub open spec fn yields(self, shared: Option<Shared<T>>) -> bool {
        &&& shared is None == (self.target() == 0)
        &&& shared matches Some(shared) ==> {
            &&& shared.instance_ptr == self.target()
            &&& shared.token == self.token
        }
    }

    /// Creates a new [`AtomicShared`] from a [`Shared`] of `T`.
    #[must_use]
    pub fn from(shared: Shared<T>) -> (atomic: Self)
        ensures
            atomic.word == shared.instance_ptr,
            atomic.token == shared.token,
    {
        Atomic { word: shared.underlying_ptr(), token: shared.token, marker: PhantomData }
    }

    /// Returns the instance that the [`AtomicShared`] holds.
    fn take(&self) -> (shared: Option<Shared<T>>)
        ensures
            self.yields(shared),
    {
        let instance_ptr: usize = Tag::unset_tag(self.word);
        if instance_ptr == 0 {
            None
        } else {
            Some(Shared { instance_ptr, token: self.token, marker: PhantomData })
        }
    }

    /// Makes the [`AtomicShared`] hold the given value.
    fn hold(&mut self, ptr: Option<Shared<T>>, tag: Tag)
        ensures
            final(self).holds(ptr, tag),
    {
        match ptr {
            Some(shared) => {
                self.word = Tag::update_tag(shared.underlying_ptr(), tag);
                self.token = shared.token;
            },
            None => {
                self.word = Tag::update_tag(0, tag);
            },
        }
    }

    /// Stores the given value into the [`AtomicShared`] and returns the original value.
    pub fn swap(&mut self, new: (Option<Shared<T>>, Tag), order: Ordering) -> (previous: (
        Option<Shared<T>>,
        Tag,
    ))
        ensures
            final(self).holds(new.0, new.1),
            old(self).yields(previous.0),
            previous.1@ == old(self).word % 4,
    {
        let previous = self.take();
        let tag = Tag::into_tag(self.word);
        self.hold(new.0, new.1);
        (previous, tag)
    }

    /// Stores `new` into the [`AtomicShared`] if the current value is the same as `current`.
    ///
    /// Returns the previously held value and the updated [`Ptr`].
    ///
    /// # Errors
    ///
    /// Returns `Err` with the supplied [`Shared`] and the current [`Ptr`].
    pub fn compare_exchange<'g>(
        &mut self,
        current: Ptr<'g, T>,
        new: (Option<Shared<T>>, Tag),
        success: Ordering,
        failure: Ordering,
        guard: &'g Guard,
    ) -> (result: Result<(Option<Shared<T>>, Ptr<'g, T>), (Option<Shared<T>>, Ptr<'g, T>)>)
        requires
            ref_counted::load_order(failure),
        ensures
            result is Ok == (old(self).word == current.instance_ptr),
            result matches Ok((previous, ptr)) ==> {
                &&& final(self).holds(new.0, new.1)
                &&& old(self).yields(previous)
                &&& ptr.instance_ptr == final(self).word
                &&& ptr.collector@ == guard.collector_ptr
                &&& ptr.session == guard.session
            },
            result matches Err((given, ptr)) ==> {
                &&& *final(self) == *old(self)
                &&& given == new.0
                &&& ptr.instance_ptr == old(self).word
                &&& ptr.collector@ == guard.collector_ptr
                &&& ptr.session == guard.session
            },
    {
        self.compare_exchange_weak(current, new, success, failure, guard, false)
    }

    /// Stores `new` into the [`AtomicShared`] if the current value is the same as `current`.
    ///
    /// This method is allowed to spuriously fail even when the comparison succeeds: it does so if
    /// the processor takes it to be `spurious`.
    ///
    /// Returns the previously held value and the updated [`Ptr`].
    ///
    /// # Errors
    ///
    /// Returns `Err` with the supplied [`Shared`] and the current [`Ptr`].
    pub fn compare_exchange_weak<'g>(
        &mut self,
        current: Ptr<'g, T>,
        new: (Option<Shared<T>>, Tag),
        success: Ordering,
        failure: Ordering,
        guard: &'g Guard,
        spurious: bool,
    ) -> (result: Result<(Option<Shared<T>>, Ptr<'g, T>), (Option<Shared<T>>, Ptr<'g, T>)>)
        requires
            ref_counted::load_order(failure),
        ensures
            result is Ok == (old(self).word == current.instance_ptr && !spurious),
            result matches Ok((previous, ptr)) ==> {
                &&& final(self).holds(new.0, new.1)
                &&& old(self).yields(previous)
                &&& ptr.instance_ptr == final(self).word
                &&& ptr.collector@ == guard.collector_ptr
                &&& ptr.session == guard.session
            },
            result matches Err((given, ptr)) ==> {
                &&& *final(self) == *old(self)
                &&& given == new.0
                &&& ptr.instance_ptr == old(self).word
                &&& ptr.collector@ == guard.collector_ptr
                &&& ptr.session == guard.session
            },
    {
        if self.word == current.as_underlying_ptr() && !spurious {
            let previous = self.take();
            self.hold(new.0, new.1);
            Ok((previous, self.load(Ordering::Relaxed, guard)))
        } else {
            Err((new.0, self.load(Ordering::Relaxed, guard)))
        }
    }

    /// Converts `self` into a [`Shared`].
    ///
    /// Returns `None` if `self` did not own an instance.
    #[must_use]
    pub fn into_shared(self, order: Ordering) -> (shared: Option<Shared<T>>)
        ensures
            self.yields(shared),
    {
        self.take()
    }
}

impl<T> AtomicShared<T> {
    /// Clones `self` including tags.
    ///
    /// If `self` is not supposed to be an `AtomicShared::null`, this will never return an
    /// `AtomicShared::null`.
    #[must_use]
    pub fn clone<F>(&self, domain: &mut Domain<T, F>, order: Ordering, guard: &Guard) -> (
    atomic: AtomicShared<T>)
        requires
            old(domain).wf(),
            guard.valid(old(domain)@),
            self.valid(old(domain)@),
            ref_counted::load_order(order),
            self.target() != 0 ==> old(domain)@.shareable(self.target()),
        ensures
            final(domain).wf(),
            atomic.valid(final(domain)@),
            atomic.word == self.word,
            self.target() == 0 ==> final(domain)@ == old(domain)@,
            self.target() != 0 ==> {
                &&& atomic.token@ == old(domain)@.tokens
                &&& final(domain)@ == old(domain)@.share(self.target())
            },
            old(domain)@.honours(final(domain)@, Set::empty()),
            final(domain).room() == old(domain).room(),
    {
        let tag = self.tag(order);
        match self.get_shared(domain, order, guard) {
            Some(shared) => {
                let mut atomic = AtomicShared::null();
                atomic.hold(Some(shared), tag);
                atomic
            },
            None => {
                let mut atomic = AtomicShared::null();
                atomic.hold(None, tag);
                atomic
            },
        }
    }

    /// Tries to create a [`Shared`] out of `self`.
    ///
    /// If `self` is not supposed to be an `AtomicShared::null`, this will never return `None`.
    #[must_use]
    pub fn get_shared<F>(&self, domain: &mut Domain<T, F>, order: Ordering, guard: &Guard) -> (
    shared: Option<Shared<T>>)
        requires
            old(domain).wf(),
            guard.valid(old(domain)@),
            self.valid(old(domain)@),
            ref_counted::load_order(order),
            self.target() != 0 ==> old(domain)@.shareable(self.target()),
        ensures
            final(domain).wf(),
            shared is None == (self.target() == 0),
            shared is None ==> final(domain)@ == old(domain)@,
            shared matches Some(shared) ==> {
                &&& shared.valid(final(domain)@)
                &&& shared.instance_ptr == self.target()
                &&& shared.token@ == old(domain)@.tokens
                &&& final(domain)@ == old(domain)@.share(self.target())
            },
            old(domain)@.honours(final(domain)@, Set::empty()),
            final(domain).room() == old(domain).room(),
    {
        proof {
            domain@.lemma_guard(guard.collector_ptr, guard.token@);
            if self.target() != 0 {
                domain@.lemma_reach(guard.collector_ptr, self.target(), self.token@);
            }
            domain@.lemma_honours_instances(domain@, Set::empty());
        }
        let mut ptr = self.load(order, guard);
        while !ptr.is_null()
            invariant
                domain.wf(),
                domain@ == old(domain)@,
                domain.room() == old(domain).room(),
                ptr.instance_ptr == self.word,
                ptr.valid(domain@),
                self.target() != 0 ==> {
                    &&& domain@.live(self.target())
                    &&& domain@.instances[self.target()].shared
                    &&& domain@.shareable(self.target())
                },
                ref_counted::load_order(order),
                guard.valid(domain@),
                ptr.collector@ == guard.collector_ptr,
                ptr.session == guard.session,
            decreases 0nat,
        {
            let shared = ptr.get_shared(domain);
            if shared.is_some() {
                return shared;
            }
            ptr = self.load(order, guard);
        }
        None
    }

    /// Clones `self` including tags by means of a [`Guard`] of its own.
    ///
    /// # Errors
    ///
    /// See [`Guard::new`].
    pub fn clone_unguarded<F, D: Destructor<T, F>>(
        &self,
        domain: &mut Domain<T, F>,
        thread: usize,
        destructor: &mut D,
    ) -> (result: Result<AtomicShared<T>, Vec<Payload<T, F>>>)
        requires
            old(domain).wf(),
            old(domain).guardable(thread),
            self.valid(old(domain)@),
            self.target() != 0 ==> {
                &&& !old(destructor).estate().contains(self.token@)
                &&& 2 * (old(domain)@.instances[self.target()].refs.len() + old(
                    destructor,
                ).remaining()) + 1 <= usize::MAX
            },
        ensures
            final(domain).wf(),
            ({
                let c = final(domain).local(thread);
                let token = old(domain)@.tokens;
                let started = old(domain)@.started(thread, c);
                &&& result matches Ok(atomic) ==> {
                    &&& atomic.valid(final(domain)@)
                    &&& atomic.word == self.word
                    &&& exists|guarded: Model<T, F>| #[trigger]
                        started.opened(
                            guarded,
                            c,
                            true,
                            old(destructor).log(),
                            final(destructor).log(),
                        ) && final(domain)@ == if self.target() == 0 {
                            guarded.end_guard(c, token)
                        } else {
                            guarded.share(self.target()).end_guard(c, token)
                        }
                }
                &&& result matches Err(rest) ==> started.foiled(
                    final(domain)@,
                    c,
                    old(destructor).log(),
                    final(destructor).log(),
                    rest@,
                )
                &&& !started.reclaims(c, true) || old(destructor).quiet() ==> result is Ok
                &&& old(destructor).quiet() ==> exists|guarded: Model<T, F>| #[trigger]
                    started.new_guard(c, true).alike(guarded) && guarded.dropped
                        == old(domain)@.dropped && final(domain)@ == if self.target() == 0 {
                        guarded.end_guard(c, token)
                    } else {
                        guarded.share(self.target()).end_guard(c, token)
                    }
            }),
            result is Ok == (final(destructor).failures() == old(destructor).failures()),
            final(destructor).failures() <= old(destructor).failures() + 1,
            result is Err ==> final(destructor).faulted(),
            old(domain)@.honours(final(domain)@, old(destructor).estate()),
    {
        let ghost before = domain@;
        let ghost estate = destructor.estate();
        let ghost log = destructor.log();
        proof {
            if self.target() != 0 {
                before.lemma_owned(self.target(), self.token@);
            }
        }
        let guard = match Guard::new(domain, thread, destructor) {
            Ok(guard) => guard,
            Err(rest) => {
                return Err(rest);
            },
        };
        let ghost mid = domain@;
        proof {
            if self.target() != 0 {
                let c = guard.collector_ptr;
                before.lemma_started(thread, c);
                before.started(thread, c).lemma_opened_refs(
                    mid,
                    c,
                    true,
                    log,
                    destructor.log(),
                    self.target(),
                );
            }
        }
        let atomic = self.clone(domain, Ordering::Acquire, &guard);
        let ghost cloned = domain@;
        let ghost token = guard.token@;
        guard.drop(domain);
        proof {
            mid.lemma_honours_more(cloned, estate);
            before.lemma_honours_transitive(mid, cloned, estate);
            before.lemma_honours_fresh(cloned, domain@, token, estate);
        }
        Ok(atomic)
    }
}

} // verus!

use crate::collectible::{Collectible, InstancePtr, Link};
use crate::collector::Collector;
use crate::domain::Domain;
use std::sync::atomic::Ordering;
use vstd::prelude::*;

verus! {

/// [`RefCounted`] stores an instance of type `T`, and a union of a link to the next
/// [`Collectible`] or the reference counter.
pub struct RefCounted<T> {
    /// The instance.
    pub instance: T,
    /// The reference counter until the instance is retired, and the embedded link afterwards.
    pub next_or_refcnt: Link,
}

/// An atomic load does not panic with the memory ordering.
pub open spec fn load_order(order: Ordering) -> bool {
    !(order is Release) && !(order is AcqRel)
}

impl<T> RefCounted<T> {
    /// The value of the reference counter: zero if the instance is not reference-counted or has no
    /// strong reference left, and otherwise one less than twice the number of strong references.
    pub open spec fn count(self) -> usize {
        self.next_or_refcnt.ref_cnt
    }

    /// The same instance with another counter value.
    pub open spec fn with_count(self, count: int) -> Self {
        RefCounted {
            next_or_refcnt: Link { ref_cnt: count as usize, ptr: self.next_or_refcnt.ptr },
            ..self
        }
    }

    /// Creates a new [`RefCounted`] that allows ownership sharing.
    pub fn new_shared(instance: T) -> (counted: Self)
        ensures
            counted == (RefCounted { instance, next_or_refcnt: Link { ref_cnt: 1, ptr: 0 } }),
    {
        RefCounted { instance, next_or_refcnt: Link::new_shared() }
    }

    /// Creates a new [`RefCounted`] that disallows reference counting.
    ///
    /// The reference counter field is never used until the instance is retired.
    pub fn new_unique(instance: T) -> (counted: Self)
        ensures
            counted == (RefCounted { instance, next_or_refcnt: Link { ref_cnt: 0, ptr: 0 } }),
    {
        RefCounted { instance, next_or_refcnt: Link::new_unique() }
    }

    /// Tries to add a strong reference to the underlying instance.
    ///
    /// It fails if the counter is even, as it is when there is no strong reference, or when the
    /// instance has been retired and the counter is part of a link.
    pub fn try_add_ref(&mut self, order: Ordering) -> (added: bool)
        requires
            load_order(order),
            old(self).count() + 2 <= usize::MAX,
        ensures
            added == (old(self).count() % 2 == 1),
            added ==> *final(self) == old(self).with_count(old(self).count() + 2),
            !added ==> *final(self) == *old(self),
    {
        let r: usize = self.next_or_refcnt.ref_cnt;
        assert(r & 1 == r % 2) by (bit_vector);
        if r & 1 == 1 {
            self.next_or_refcnt.ref_cnt = r + 2;
            true
        } else {
            false
        }
    }

    /// Returns a mutable reference to the instance if the number of owners is `1`.
    pub fn get_mut_shared(&mut self) -> (instance: Option<&mut T>)
        ensures
            instance is Some == (old(self).count() == 1),
            instance is None ==> *final(self) == *old(self),
            instance matches Some(value) ==> *value == old(self).instance && *final(self) == (
            RefCounted { instance: *final(value), next_or_refcnt: old(self).next_or_refcnt }),
    {
        let value: usize = *self.ref_cnt();
        if value == 1 {
            Some(&mut self.instance)
        } else {
            None
        }
    }

    /// Returns a mutable reference to the instance if it is uniquely owned.
    pub fn get_mut_unique(&mut self) -> (instance: &mut T)
        requires
            old(self).count() == 0,
        ensures
            *instance == old(self).instance,
            *final(self) == (RefCounted {
                instance: *final(instance),
                next_or_refcnt: old(self).next_or_refcnt,
            }),
    {
        &mut self.instance
    }

    /// Adds a strong reference to the underlying instance.
    pub fn add_ref(&mut self)
        ensures
            *final(self) == old(self).with_count(
                if old(self).count() + 2 <= usize::MAX {
                    old(self).count() + 2
                } else {
                    old(self).count() + 2 - (usize::MAX + 1)
                },
            ),
    {
        self.next_or_refcnt.ref_cnt = self.next_or_refcnt.ref_cnt.wrapping_add(2);
    }

    /// Drops a strong reference to the underlying instance.
    ///
    /// Returns `true` if it the last reference was dropped.
    pub fn drop_ref(&mut self) -> (last: bool)
        ensures
            last == (old(self).count() == 1),
            *final(self) == old(self).with_count(
                if old(self).count() < 2 {
                    0
                } else {
                    old(self).count() - 2
                },
            ),
    {
        let current: usize = self.next_or_refcnt.ref_cnt;
        self.next_or_refcnt.ref_cnt = current.saturating_sub(2);
        current == 1
    }

    /// Returns a pointer to the instance, which is at the given offset in a [`RefCounted`].
    ///
    /// Returns null if the pointer to the [`RefCounted`] is null.
    pub fn inst_ptr(self_ptr: usize, offset: usize) -> (instance_ptr: usize)
        requires
            self_ptr + offset <= usize::MAX,
        ensures
            instance_ptr == if self_ptr == 0 {
                0
            } else {
                self_ptr + offset
            },
    {
        let is_valid: usize = if self_ptr == 0 {
            0
        } else {
            1
        };
        assert(offset * is_valid == if is_valid == 0 {
            0
        } else {
            offset as int
        }) by (nonlinear_arith)
            requires
                is_valid == 0 || is_valid == 1,
        ;
        self_ptr + offset * is_valid
    }

    /// Passes a pointer to [`RefCounted`] to the garbage collector.
    pub fn pass_to_collector<F>(domain: &mut Domain<T, F>, thread: usize, ptr: usize) -> (
    collector_ptr: Ghost<usize>)
        requires
            old(domain).wf(),
            old(domain).accepts(thread),
            old(domain)@.instances.contains_key(ptr),
            old(domain)@.instances[ptr].retirement is None,
            old(domain)@.instances[ptr].refs.len() == 0,
        ensures
            final(domain).wf(),
            collector_ptr@ == final(domain).local(thread),
            old(domain).local(thread) == 0 ==> !old(domain)@.occupied(collector_ptr@),
            final(domain)@ == old(domain)@.started(thread, collector_ptr@).retire(
                collector_ptr@,
                ptr,
            ),
            old(domain).rests(thread) ==> old(domain)@.honours(
                final(domain)@,
                Set::empty(),
            ),
            old(domain)@.spares_retired(final(domain)@),
    {
        let ghost before = domain@;
        proof {
            assert(before.occupied(ptr));
        }
        let collector_ptr: usize = Collector::current(domain, thread);
        let ghost mid = domain@;
        proof {
            if before.at_rest(thread as int) {
                before.lemma_current(thread as int, collector_ptr);
            }
            assert(mid.collectable(collector_ptr, ptr)) by {
                assert(mid.occupied(collector_ptr));
            }
            mid.lemma_respects_retire(collector_ptr, ptr);
        }
        Collector::collect(domain, collector_ptr, ptr);
        proof {
            before.lemma_spares_retired_transitive(mid, domain@);
            if before.at_rest(thread as int) {
                mid.lemma_settles(domain@, collector_ptr, Set::empty());
                mid.lemma_honours(domain@, collector_ptr, Set::empty());
                before.lemma_honours_transitive(mid, domain@, Set::empty());
            }
        }
        Ghost(collector_ptr)
    }

    /// Returns a reference to its reference count.
    pub fn ref_cnt(&self) -> (ref_cnt: &usize)
        ensures
            *ref_cnt == self.count(),
    {
        self.next_or_refcnt.ref_cnt()
    }

    /// Returns a reference to the instance.
    pub fn deref(&self) -> (instance: &T)
        ensures
            *instance == self.instance,
    {
        &self.instance
    }
}

impl<T> Collectible for RefCounted<T> {
    open spec fn link(&self) -> Link {
        self.next_or_refcnt
    }

    open spec fn relinked(&self, link: Link) -> Self {
        RefCounted { instance: self.instance, next_or_refcnt: link }
    }

    fn next_ptr(&self) -> (next_ptr: Option<InstancePtr>) {
        self.next_or_refcnt.next_ptr()
    }

    fn set_next_ptr(&mut self, next_ptr: Option<InstancePtr>) {
        self.next_or_refcnt.set_next_ptr(next_ptr);
    }
}

} // verus!

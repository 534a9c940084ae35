use vstd::prelude::*;

verus! {

/// A pointer to a [`Collectible`]: the address of the instance, and a word that stands for its
/// type.
#[derive(Clone, Copy, Debug, Eq, PartialEq, Structural)]
pub struct InstancePtr {
    /// The address of the instance, which is never null.
    pub data: usize,
    /// Tells apart the types that implement [`Collectible`].
    pub vtable: usize,
}

/// [`Collectible`] defines the memory layout for the type in order to be passed to the garbage
/// collector.
pub trait Collectible: Sized {
    /// The link embedded in the instance.
    spec fn link(&self) -> Link;

    /// The instance with another link embedded in it.
    spec fn relinked(&self, link: Link) -> Self;

    /// Returns the next [`Collectible`] pointer.
    fn next_ptr(&self) -> (next_ptr: Option<InstancePtr>)
        ensures
            next_ptr == self.link().target(),
    ;

    /// Sets the next [`Collectible`] pointer.
    fn set_next_ptr(&mut self, next_ptr: Option<InstancePtr>)
        requires
            next_ptr matches Some(ptr) ==> ptr.data != 0,
        ensures
            *final(self) == old(self).relinked(Link::to(next_ptr)),
    ;
}

/// [`Link`] implements [`Collectible`].
///
/// Its first word is the reference counter of an instance that has not been retired; the two words
/// together are the pointer to the next [`Collectible`] afterwards.
#[derive(Clone, Copy, Debug, Eq, PartialEq, Structural)]
pub struct Link {
    /// The reference counter, or the address of the next instance.
    pub ref_cnt: usize,
    /// What tells the type of the next instance.
    pub ptr: usize,
}

/// [`DeferredClosure`] implements [`Collectible`] for a closure to execute it after all the
/// current readers in the process are gone.
pub struct DeferredClosure<F> {
    /// The closure, until it is executed.
    pub f: Option<F>,
    /// The embedded link.
    pub link: Link,
}

impl Link {
    /// The pointer that the two words make up.
    pub open spec fn target(self) -> Option<InstancePtr> {
        if self.ref_cnt == 0 {
            None
        } else {
            Some(InstancePtr { data: self.ref_cnt, vtable: self.ptr })
        }
    }

    /// The words that a pointer consists of.
    pub open spec fn to(next_ptr: Option<InstancePtr>) -> Link {
        match next_ptr {
            Some(ptr) => Link { ref_cnt: ptr.data, ptr: ptr.vtable },
            None => Link { ref_cnt: 0, ptr: 0 },
        }
    }

    /// Creates a [`Link`] of an instance with one strong reference.
    pub fn new_shared() -> (link: Self)
        ensures
            link == (Link { ref_cnt: 1, ptr: 0 }),
    {
        Link { ref_cnt: 1, ptr: 0 }
    }

    /// Creates a [`Link`] of an instance that disallows reference counting.
    pub fn new_unique() -> (link: Self)
        ensures
            link == (Link { ref_cnt: 0, ptr: 0 }),
    {
        Link { ref_cnt: 0, ptr: 0 }
    }

    /// Returns a reference to the reference counter.
    pub fn ref_cnt(&self) -> (ref_cnt: &usize)
        ensures
            *ref_cnt == self.ref_cnt,
    {
        &self.ref_cnt
    }
}

impl Default for Link {
    fn default() -> (link: Self)
        ensures
            link == (Link { ref_cnt: 0, ptr: 0 }),
    {
        Link { ref_cnt: 0, ptr: 0 }
    }
}

impl Collectible for Link {
    open spec fn link(&self) -> Link {
        *self
    }

    open spec fn relinked(&self, link: Link) -> Self {
        link
    }

    fn next_ptr(&self) -> (next_ptr: Option<InstancePtr>) {
        assert(self.link() == *self);
        if self.ref_cnt == 0 {
            None
        } else {
            Some(InstancePtr { data: self.ref_cnt, vtable: self.ptr })
        }
    }

    fn set_next_ptr(&mut self, next_ptr: Option<InstancePtr>) {
        let (ref_cnt, ptr): (usize, usize) = match next_ptr {
            Some(ptr) => (ptr.data, ptr.vtable),
            None => (0, 0),
        };
        self.ref_cnt = ref_cnt;
        self.ptr = ptr;
    }
}

impl<F: FnOnce()> DeferredClosure<F> {
    /// Creates a new [`DeferredClosure`].
    pub fn new(f: F) -> (closure: Self)
        ensures
            closure.f == Some(f),
            closure.link == (Link { ref_cnt: 0, ptr: 0 }),
    {
        DeferredClosure { f: Some(f), link: Link::default() }
    }

    /// Executes the closure unless it has been executed.
    pub fn drop(&mut self)
        requires
            old(self).f matches Some(f) ==> f.requires(()),
        ensures
            final(self).f is None,
            final(self).link == old(self).link,
            old(self).f matches Some(f) ==> f.ensures((), ()),
    {
        match self.f.take() {
            Some(f) => f(),
            None => {},
        }
    }
}

impl<F> Collectible for DeferredClosure<F> {
    open spec fn link(&self) -> Link {
        self.link
    }

    open spec fn relinked(&self, link: Link) -> Self {
        DeferredClosure { f: self.f, link }
    }

    fn next_ptr(&self) -> (next_ptr: Option<InstancePtr>) {
        self.link.next_ptr()
    }

    fn set_next_ptr(&mut self, next_ptr: Option<InstancePtr>) {
        self.link.set_next_ptr(next_ptr);
    }
}

} // verus!

//! The memory that collectors and instances live in.

use crate::collectible::{Collectible, DeferredClosure, InstancePtr, Link};
use crate::collector::Collector;
use crate::ref_counted::RefCounted;
use vstd::prelude::*;

verus! {

/// Something that can be passed to the garbage collector.
pub enum Body<T, F> {
    /// An instance.
    Instance(RefCounted<T>),
    /// A closure to be executed.
    Closure(DeferredClosure<F>),
    /// A collector that its thread has given up.
    Collector(Collector),
}

impl<T, F> Body<T, F> {
    /// The word that tells the variants apart.
    pub open spec fn vtable_word(self) -> usize {
        match self {
            Body::Instance(_) => 1,
            Body::Closure(_) => 2,
            Body::Collector(_) => 3,
        }
    }

    /// Returns the word that tells the variants apart.
    pub fn vtable(&self) -> (vtable: usize)
        ensures
            vtable == self.vtable_word(),
    {
        match self {
            Body::Instance(_) => 1,
            Body::Closure(_) => 2,
            Body::Collector(_) => 3,
        }
    }
}

impl<T, F> Collectible for Body<T, F> {
    open spec fn link(&self) -> Link {
        match *self {
            Body::Instance(instance) => instance.link(),
            Body::Closure(closure) => closure.link(),
            Body::Collector(collector) => collector.link(),
        }
    }

    open spec fn relinked(&self, link: Link) -> Self {
        match *self {
            Body::Instance(instance) => Body::Instance(instance.relinked(link)),
            Body::Closure(closure) => Body::Closure(closure.relinked(link)),
            Body::Collector(collector) => Body::Collector(collector.relinked(link)),
        }
    }

    fn next_ptr(&self) -> (next_ptr: Option<InstancePtr>) {
        match self {
            Body::Instance(instance) => instance.next_ptr(),
            Body::Closure(closure) => closure.next_ptr(),
            Body::Collector(collector) => collector.next_ptr(),
        }
    }

    fn set_next_ptr(&mut self, next_ptr: Option<InstancePtr>) {
        match self {
            Body::Instance(instance) => instance.set_next_ptr(next_ptr),
            Body::Closure(closure) => closure.set_next_ptr(next_ptr),
            Body::Collector(collector) => collector.set_next_ptr(next_ptr),
        }
    }
}

/// [`Heap`] hands out addresses that are not null, and that leave room for a
/// [`Tag`](crate::Tag).
pub struct Heap<T, F> {
    /// What lives at the addresses, in their order.
    pub slots: Vec<Option<Body<T, F>>>,
    /// The slots that are vacant.
    pub vacant: Vec<usize>,
}

/// The distance between two addresses.
pub const STRIDE: usize = 4;

impl<T, F> View for Heap<T, F> {
    type V = Map<usize, Body<T, F>>;

    open spec fn view(&self) -> Map<usize, Body<T, F>> {
        Map::new(
            |a: usize|
                {
                    &&& a != 0
                    &&& a % STRIDE == 0
                    &&& a / STRIDE - 1 < self.slots@.len()
                    &&& self.slots@[a / STRIDE - 1] is Some
                },
            |a: usize| self.slots@[a / STRIDE - 1]->0,
        )
    }
}

impl<T, F> Heap<T, F> {
    /// Vacant slots are vacant, and all addresses can be represented.
    pub open spec fn wf(self) -> bool {
        &&& STRIDE * (self.slots@.len() + 1) <= usize::MAX
        &&& self.vacant@.no_duplicates()
        &&& forall|i: int|
            0 <= i < self.vacant@.len() ==> {
                &&& #[trigger] self.vacant@[i] < self.slots@.len()
                &&& self.slots@[self.vacant@[i] as int] is None
            }
    }

    /// There is an address left.
    pub open spec fn room(self) -> bool {
        self.vacant@.len() > 0 || STRIDE * (self.slots@.len() + 2) <= usize::MAX
    }

    /// Creates an empty [`Heap`].
    pub fn new() -> (heap: Self)
        ensures
            heap.wf(),
            heap.room(),
            heap@ == Map::<usize, Body<T, F>>::empty(),
    {
        let heap = Heap { slots: Vec::new(), vacant: Vec::new() };
        assert(heap@ =~= Map::<usize, Body<T, F>>::empty());
        heap
    }

    /// Returns `true` if there is an address left.
    pub fn has_room(&self) -> (room: bool)
        requires
            self.wf(),
        ensures
            room == self.room(),
    {
        self.vacant.len() > 0 || self.slots.len() + 2 <= usize::MAX / STRIDE
    }

    /// Places something at an address that was vacant.
    pub fn place(&mut self, body: Body<T, F>) -> (address: usize)
        requires
            old(self).wf(),
            old(self).room(),
        ensures
            final(self).wf(),
            address != 0,
            address % STRIDE == 0,
            !old(self)@.contains_key(address),
            final(self)@ == old(self)@.insert(address, body),
            old(self).vacant@.len() > 0 ==> {
                &&& final(self).slots@.len() == old(self).slots@.len()
                &&& final(self).vacant@.len() == old(self).vacant@.len() - 1
            },
            old(self).vacant@.len() == 0 ==> {
                &&& final(self).slots@.len() == old(self).slots@.len() + 1
                &&& final(self).vacant@.len() == 0
            },
    {
        match self.vacant.pop() {
            Some(slot) => {
                assert(old(self).vacant@.last() == slot);
                self.slots[slot] = Some(body);
                let address: usize = (slot + 1) * STRIDE;
                assert(self@ =~= old(self)@.insert(address, body));
                assert forall|i: int| 0 <= i < self.vacant@.len() implies {
                    &&& #[trigger] self.vacant@[i] < self.slots@.len()
                    &&& self.slots@[self.vacant@[i] as int] is None
                } by {
                    assert(self.vacant@[i] == old(self).vacant@[i]);
                    assert(old(self).vacant@[i] != slot);
                }
                address
            },
            None => {
                let slot: usize = self.slots.len();
                self.slots.push(Some(body));
                let address: usize = (slot + 1) * STRIDE;
                assert(self@ =~= old(self)@.insert(address, body));
                address
            },
        }
    }

    /// Takes what lives at an address.
    pub fn take(&mut self, address: usize) -> (body: Body<T, F>)
        requires
            old(self).wf(),
            old(self)@.contains_key(address),
        ensures
            final(self).wf(),
            body == old(self)@[address],
            final(self)@ == old(self)@.remove(address),
            final(self).room(),
            final(self).slots@.len() == old(self).slots@.len(),
            final(self).vacant@.len() == old(self).vacant@.len() + 1,
    {
        let slot: usize = address / STRIDE - 1;
        let mut taken: Option<Body<T, F>> = None;
        std::mem::swap(&mut self.slots[slot], &mut taken);
        self.vacant.push(slot);
        assert(self@ =~= old(self)@.remove(address)) by {
            assert forall|a: usize| a != address && a % STRIDE == 0 && a != 0 implies #[trigger] (a
                / STRIDE) - 1 != slot by {}
        }
        assert(old(self).slots@[address / STRIDE - 1] is Some);
        match taken {
            Some(body) => body,
            None => vstd::pervasive::unreached(),
        }
    }

    /// Returns what lives at an address.
    pub fn get(&self, address: usize) -> (body: &Body<T, F>)
        requires
            self@.contains_key(address),
        ensures
            *body == self@[address],
    {
        match &self.slots[address / STRIDE - 1] {
            Some(body) => body,
            None => vstd::pervasive::unreached(),
        }
    }

    /// Returns a mutable reference to what lives at an address.
    pub fn get_mut(&mut self, address: usize) -> (body: &mut Body<T, F>)
        requires
            old(self).wf(),
            old(self)@.contains_key(address),
        ensures
            *body == old(self)@[address],
            final(self).wf(),
            final(self).room() == old(self).room(),
            final(self)@ == old(self)@.insert(address, *final(body)),
    {
        let slot: usize = address / STRIDE - 1;
        match &mut self.slots[slot] {
            Some(body) => {
                body
            },
            None => vstd::pervasive::unreached(),
        }
    }
}

} // verus!

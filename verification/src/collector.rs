use crate::anchor::CollectorAnchor;
use crate::collectible::{Collectible, InstancePtr, Link};
use crate::destructor::Destructor;
use crate::domain::Domain;
use crate::epoch::Epoch;
use crate::guard::Guard;
use crate::heap::Body;
use crate::model::{Bag, Lock, Model, Payload};
use crate::Tag;
use crate::{domain, epoch, model};
use std::ops::Not;
use vstd::prelude::*;

verus! {

/// [`Collector`] is a garbage collector that reclaims thread-locally unreachable instances
/// when they are globally unreachable.
pub struct Collector {
    /// What other threads read: the epoch that was announced last, and two bits.
    pub state: u8,
    /// The epoch that was announced last.
    pub announcement: Epoch,
    /// The number of guards to be dropped until the next scan.
    pub next_epoch_update: u8,
    /// There may be retired instances.
    pub has_garbage: bool,
    /// The number of guards in the thread.
    pub num_readers: u32,
    /// Instances retired before the last epoch change that the thread has acknowledged.
    pub previous_instance_link: Option<InstancePtr>,
    /// Instances retired since then.
    pub current_instance_link: Option<InstancePtr>,
    /// Instances retired one epoch change before the previous ones.
    pub next_instance_link: Option<InstancePtr>,
    /// Instances that are being reclaimed.
    pub garbage_link: Option<InstancePtr>,
    /// The next collector of the chain.
    pub next_link: usize,
    /// The link that is embedded once the collector itself is retired.
    pub link: Link,
}

/// Data stored in a [`CollectorRoot`] is shared among [`Collector`] instances.
pub struct CollectorRoot {
    /// The global epoch.
    pub epoch: u8,
    /// The address of the first collector of the chain, null if there is none, and a [`Tag`].
    pub chain_head: usize,
}

/// [`ScanCursor`] is where a thread that scans the chain has got to.
pub struct ScanCursor {
    /// The collector of the scanning thread.
    pub collector_ptr: usize,
    /// The epoch that the thread is in.
    pub known_epoch: u8,
    /// The last collector that was left in the chain, null if there is none.
    pub previous_ptr: usize,
    /// The collector that is to be looked at next, null at the end of the chain.
    pub current_ptr: usize,
}

impl ScanCursor {
    /// The cursor belongs to the scan that is under way.
    pub open spec fn follows<T, F>(self, model: Model<T, F>) -> bool {
        model.lock matches Lock::Scan(scan) && {
            &&& scan.scanner == self.collector_ptr
            &&& epoch::epoch_word(scan.known) == self.known_epoch
            &&& scan.previous == self.previous_ptr
            &&& model::first_of(scan.rest) == self.current_ptr
        }
    }
}

impl Collectible for Collector {
    open spec fn link(&self) -> Link {
        self.link
    }

    open spec fn relinked(&self, link: Link) -> Self {
        Collector { link, ..*self }
    }

    fn next_ptr(&self) -> (next_ptr: Option<InstancePtr>) {
        self.link.next_ptr()
    }

    fn set_next_ptr(&mut self, next_ptr: Option<InstancePtr>) {
        self.link.set_next_ptr(next_ptr);
    }
}

impl Collector {
    /// The cadence of an epoch update.
    pub const CADENCE: u8 = u8::MAX;

    /// A bit field representing a thread state where the thread does not have a
    /// [`Guard`](crate::Guard).
    pub const INACTIVE: u8 = 1 << 2;

    /// A bit field representing a thread state where the thread has been terminated.
    pub const INVALID: u8 = 1 << 3;

    /// A collector that has just been allocated.
    pub open spec fn fresh() -> Self {
        Collector {
            state: 4,
            announcement: Epoch(0),
            next_epoch_update: 0,
            has_garbage: false,
            num_readers: 0,
            previous_instance_link: None,
            current_instance_link: None,
            next_instance_link: None,
            garbage_link: None,
            next_link: 0,
            link: Link { ref_cnt: 0, ptr: 0 },
        }
    }

    /// Creates a collector of a thread that does not have a [`Guard`](crate::Guard).
    pub fn new() -> (collector: Self)
        ensures
            collector == Collector::fresh(),
    {
        assert(1u8 << 2 == 4) by (bit_vector);
        Collector {
            state: Collector::INACTIVE,
            announcement: Epoch::default(),
            next_epoch_update: 0,
            has_garbage: false,
            num_readers: 0,
            previous_instance_link: None,
            current_instance_link: None,
            next_instance_link: None,
            garbage_link: None,
            next_link: 0,
            link: Link::default(),
        }
    }

    /// The collector with another head of a list.
    pub open spec fn with_link(self, bag: Bag, link: Option<InstancePtr>) -> Self {
        match bag {
            Bag::Previous => Collector { previous_instance_link: link, ..self },
            Bag::Current => Collector { current_instance_link: link, ..self },
            Bag::Next => Collector { next_instance_link: link, ..self },
            Bag::Garbage => Collector { garbage_link: link, ..self },
        }
    }

    /// Returns the head of a list.
    fn bag_link<T, F>(domain: &Domain<T, F>, collector_ptr: usize, bag: Bag) -> (link: Option<
        InstancePtr,
    >)
        requires
            domain.rep(),
            domain@.collectors.contains_key(collector_ptr),
        ensures
            link == domain::head_ptr(domain.heap@, domain@.collectors[collector_ptr].bag(bag)),
    {
        let collector = domain.collector(collector_ptr);
        match bag {
            Bag::Previous => collector.previous_instance_link,
            Bag::Current => collector.current_instance_link,
            Bag::Next => collector.next_instance_link,
            Bag::Garbage => collector.garbage_link,
        }
    }

    /// Takes the first instance off a list, and deallocates it. What is to be destroyed goes to
    /// [`Domain::dropped`].
    fn discard<T, F>(domain: &mut Domain<T, F>, collector_ptr: usize, bag: Bag)
        requires
            old(domain).rep(),
            old(domain)@.steady(),
            old(domain)@.registered(collector_ptr) ==> bag == Bag::Garbage,
            old(domain)@.collectors.contains_key(collector_ptr),
            old(domain)@.collectors[collector_ptr].bag(bag).len() > 0,
            ({
                let x = old(domain)@.collectors[collector_ptr].bag(bag)[0];
                old(domain)@.collectors.contains_key(x) ==> old(domain)@.collectors[x].empty()
            }),
        ensures
            final(domain).rep(),
            final(domain)@ == old(domain)@.discard(collector_ptr, bag),
            old(domain).same_next_links(*final(domain)),
            final(domain).room(),
    {
        let ghost before = *domain;
        let ghost list = before@.collectors[collector_ptr].bag(bag);
        proof {
            before@.collectors[collector_ptr].lemma_shortened(bag);
            assert(before@.collectors[collector_ptr].holds(list[0]));
            assert(before@.keeps(collector_ptr, list[0]));
            assert(before@.occupied(list[0]));
            assert(before.heap@.contains_key(list[0]));
        }
        let link = Collector::bag_link(domain, collector_ptr, bag);
        let instance_ptr: usize = match link {
            Some(ptr) => ptr.data,
            None => vstd::pervasive::unreached(),
        };
        let next_ptr = domain.heap.get(instance_ptr).next_ptr();
        let collector = domain.collector_mut(collector_ptr);
        match bag {
            Bag::Previous => {
                collector.previous_instance_link = next_ptr;
            },
            Bag::Current => {
                collector.current_instance_link = next_ptr;
            },
            Bag::Next => {
                collector.next_instance_link = next_ptr;
            },
            Bag::Garbage => {
                collector.garbage_link = next_ptr;
            },
        }
        let ghost updated = *collector;
        let body = domain.heap.take(instance_ptr);
        proof {
            domain.model@ = before@.discard(collector_ptr, bag);
        }
        match body {
            Body::Instance(counted) => {
                domain.dropped.push(Payload::Instance(counted.instance));
            },
            Body::Closure(closure) => {
                let mut closure = closure;
                closure.set_next_ptr(None);
                domain.dropped.push(Payload::Closure(closure));
            },
            Body::Collector(_) => {},
        }
        proof {
            before.lemma_rep_discard(*domain, collector_ptr, bag, updated);
        }
    }

    /// Drops the first instance of a list.
    ///
    /// If the instance is a collector, all the garbage instances in it are dropped first.
    pub(crate) fn drop_first<T, F>(domain: &mut Domain<T, F>, collector_ptr: usize, bag: Bag)
        requires
            old(domain).rep(),
            old(domain)@.steady(),
            old(domain)@.registered(collector_ptr) ==> bag == Bag::Garbage,
            old(domain)@.collectors.contains_key(collector_ptr),
            old(domain)@.collectors[collector_ptr].bag(bag).len() > 0,
        ensures
            final(domain).rep(),
            final(domain)@ == old(domain)@.drop_first(collector_ptr, bag),
            old(domain).same_next_links(*final(domain)),
            final(domain).room(),
        decreases old(domain)@.rank(collector_ptr), 0nat,
    {
        proof {
            domain@.lemma_drop_first(collector_ptr, bag);
            let x = domain@.collectors[collector_ptr].bag(bag)[0];
            domain@.collectors[collector_ptr].lemma_shortened(bag);
            assert(domain@.collectors[collector_ptr].holds(x));
            assert(domain@.keeps(collector_ptr, x));
            assert(domain@.occupied(x));
            assert(domain.heap@.contains_key(x));
        }
        let link = Collector::bag_link(domain, collector_ptr, bag);
        let instance_ptr: usize = match link {
            Some(ptr) => ptr.data,
            None => vstd::pervasive::unreached(),
        };
        let is_collector = match domain.heap.get(instance_ptr) {
            Body::Collector(_) => true,
            _ => false,
        };
        assert(is_collector == domain@.collectors.contains_key(instance_ptr));
        if is_collector {
            Collector::empty_out(domain, instance_ptr);
        }
        Collector::discard(domain, collector_ptr, bag);
    }

    /// Drops all the instances of a list, the first one first.
    pub(crate) fn drop_bag<T, F>(domain: &mut Domain<T, F>, collector_ptr: usize, bag: Bag)
        requires
            old(domain).rep(),
            old(domain)@.steady(),
            old(domain)@.registered(collector_ptr) ==> bag == Bag::Garbage,
            old(domain)@.collectors.contains_key(collector_ptr),
        ensures
            final(domain).rep(),
            final(domain)@ == old(domain)@.drop_bag(
                collector_ptr,
                bag,
                old(domain)@.rank(collector_ptr),
            ),
            old(domain).same_next_links(*final(domain)),
        decreases old(domain)@.rank(collector_ptr), 1nat,
    {
        let ghost bound = domain@.rank(collector_ptr);
        let ghost whole = domain@.drop_bag(collector_ptr, bag, bound);
        let mut link = Collector::bag_link(domain, collector_ptr, bag);
        while link.is_some()
            invariant
                domain.rep(),
                domain@.steady(),
                domain@.registered(collector_ptr) ==> bag == Bag::Garbage,
                domain@.collectors.contains_key(collector_ptr),
                domain@.rank(collector_ptr) == bound,
                bound == old(domain)@.rank(collector_ptr),
                domain@.drop_bag(collector_ptr, bag, bound) == whole,
                link == domain::head_ptr(domain.heap@, domain@.collectors[collector_ptr].bag(bag)),
                old(domain).same_next_links(*domain),
            decreases domain@.collectors[collector_ptr].bag(bag).len(),
        {
            proof {
                domain@.lemma_drop_first(collector_ptr, bag);
            }
            Collector::drop_first(domain, collector_ptr, bag);
            link = Collector::bag_link(domain, collector_ptr, bag);
        }
    }

    /// Takes all the garbage instances out of a collector.
    pub(crate) fn empty_out<T, F>(domain: &mut Domain<T, F>, collector_ptr: usize)
        requires
            old(domain).rep(),
            old(domain)@.steady(),
            !old(domain)@.registered(collector_ptr),
            old(domain)@.collectors.contains_key(collector_ptr),
        ensures
            final(domain).rep(),
            final(domain)@ == old(domain)@.clear(collector_ptr),
            old(domain).same_next_links(*final(domain)),
        decreases old(domain)@.rank(collector_ptr), 2nat,
    {
        let ghost bound = domain@.rank(collector_ptr);
        proof {
            domain@.lemma_drop_bag(collector_ptr, Bag::Previous, bound);
        }
        Collector::drop_bag(domain, collector_ptr, Bag::Previous);
        proof {
            domain@.lemma_drop_bag(collector_ptr, Bag::Current, bound);
        }
        Collector::drop_bag(domain, collector_ptr, Bag::Current);
        Collector::drop_bag(domain, collector_ptr, Bag::Next);
    }

    /// Puts something at the head of the list of the instances retired most recently.
    fn push<T, F>(domain: &mut Domain<T, F>, collector_ptr: usize, instance_ptr: usize)
        requires
            old(domain).rep(),
            old(domain)@.space_ok(),
            old(domain)@.bags_ok(),
            old(domain)@.collectable(collector_ptr, instance_ptr),
        ensures
            final(domain).heap.wf(),
            final(domain).heap@ == old(domain).heap@.insert(
                instance_ptr,
                old(domain).heap@[instance_ptr].relinked(
                    Link::to(
                        domain::head_ptr(
                            old(domain).heap@,
                            old(domain)@.collectors[collector_ptr].current,
                        ),
                    ),
                ),
            ).insert(
                collector_ptr,
                Body::Collector(
                    Collector {
                        current_instance_link: Some(
                            InstancePtr {
                                data: instance_ptr,
                                vtable: old(domain).heap@[instance_ptr].vtable_word(),
                            },
                        ),
                        next_epoch_update: old(domain)@.collectors[collector_ptr].collected(
                            instance_ptr,
                        ).next_epoch_update,
                        has_garbage: true,
                        ..old(domain).heap@[collector_ptr]->Collector_0
                    },
                ),
            ),
            final(domain).model == old(domain).model,
            old(domain).same_but_heap(*final(domain)),
    {
        let ghost before = *domain;
        let ghost current = before@.collectors[collector_ptr].current;
        proof {
            assert(before@.occupied(collector_ptr));
            assert(before.heap@.contains_key(instance_ptr) == before@.occupied(instance_ptr));
            if current.len() > 0 {
                assert(before@.collectors[collector_ptr].holds(current[0])) by {
                    assert(current.contains(current[0]));
                }
                assert(before@.keeps(collector_ptr, current[0]));
                assert(before@.occupied(current[0]));
            }
        }
        let link = Collector::bag_link(domain, collector_ptr, Bag::Current);
        let vtable: usize = domain.heap.get(instance_ptr).vtable();
        let body = domain.heap.get_mut(instance_ptr);
        body.set_next_ptr(link);
        match domain.heap.get_mut(collector_ptr) {
            Body::Collector(collector) => {
                collector.current_instance_link = Some(
                    InstancePtr { data: instance_ptr, vtable },
                );
                let next_epoch_update: u8 = collector.next_epoch_update.saturating_sub(1);
                collector.next_epoch_update = if next_epoch_update < Collector::CADENCE / 4 {
                    next_epoch_update
                } else {
                    Collector::CADENCE / 4
                };
                collector.has_garbage = true;
            },
            _ => {},
        }
    }

    /// Collects garbage instances.
    ///
    /// Nothing happens if the pointer is null.
    pub fn collect<T, F>(domain: &mut Domain<T, F>, collector_ptr: usize, instance_ptr: usize)
        requires
            old(domain).wf(),
            instance_ptr != 0 ==> {
                &&& old(domain)@.collectable(collector_ptr, instance_ptr)
                &&& old(domain)@.instances.contains_key(instance_ptr)
                &&& old(domain)@.instances[instance_ptr].refs.len() == 0
            },
        ensures
            final(domain).wf(),
            instance_ptr == 0 ==> *final(domain) == *old(domain),
            instance_ptr != 0 ==> final(domain)@ == old(domain)@.retire(
                collector_ptr,
                instance_ptr,
            ),
            old(domain)@.registered(collector_ptr) || old(domain)@.chain.len() == 0
                ==> old(domain)@.spares(final(domain)@),
            old(domain)@.spares_retired(final(domain)@),
            final(domain).room() == old(domain).room(),
    {
        proof {
            domain@.lemma_spares_self();
        }
        if instance_ptr == 0 {
            return;
        }
        let ghost before = *domain;
        Collector::push(domain, collector_ptr, instance_ptr);
        proof {
            domain.model@ = before@.retire(collector_ptr, instance_ptr);
            before@.lemma_retire(collector_ptr, instance_ptr);
            assert(before@.occupied(instance_ptr));
            before.lemma_rep_collect(
                *domain,
                collector_ptr,
                instance_ptr,
                domain.heap@[collector_ptr]->Collector_0,
            );
            before.lemma_chain_frame(*domain);
            before@.lemma_spares_retired_retire(collector_ptr, instance_ptr);
            if before@.registered(collector_ptr) {
                before@.lemma_spares_retire(collector_ptr, instance_ptr);
            } else if before@.chain.len() == 0 {
                before@.lemma_spares_unread(domain@);
            }
        }
    }

    /// Loads the global epoch: the first of the two steps in which a thread without a
    /// [`Guard`](crate::Guard) gets one.
    pub fn load_epoch<T, F>(domain: &mut Domain<T, F>, collector_ptr: usize) -> (new_epoch: Epoch)
        requires
            old(domain).wf(),
            old(domain)@.registered(collector_ptr),
            old(domain)@.collectors[collector_ptr].num_readers == 0,
            old(domain)@.collectors[collector_ptr].settled(),
            !old(domain)@.collectors[collector_ptr].invalid,
        ensures
            final(domain).wf(),
            final(domain)@ == old(domain)@.enter(collector_ptr),
            new_epoch.0 == epoch::epoch_word(old(domain)@.epoch),
            old(domain)@.spares(final(domain)@),
            final(domain).room() == old(domain).room(),
    {
        let ghost before = *domain;
        let collector = domain.collector_mut(collector_ptr);
        collector.num_readers = 1;
        let ghost updated = *collector;
        let new_epoch = Epoch::from(domain.root.epoch);
        proof {
            domain.model@ = before@.enter(collector_ptr);
            before@.lemma_enter(collector_ptr);
            before.lemma_rep_collector(
                *domain,
                collector_ptr,
                updated,
                domain@.collectors[collector_ptr],
            );
            before@.lemma_spares_with(
                collector_ptr,
                domain@.collectors[collector_ptr],
                before@.tokens,
            );
        }
        new_epoch
    }

    /// Announces the epoch that has been loaded: the second of the two steps in which a thread
    /// without a [`Guard`](crate::Guard) gets one.
    ///
    /// Returns the guard, and `true` if the thread has not announced the same epoch before, in
    /// which case what nobody can read any more is due to be reclaimed.
    pub fn announce<T, F>(
        domain: &mut Domain<T, F>,
        collector_ptr: usize,
        new_epoch: Epoch,
    ) -> (announced: (Guard, bool))
        requires
            old(domain).wf(),
            old(domain)@.registered(collector_ptr),
            old(domain)@.collectors[collector_ptr].pending matches Some(epoch) && new_epoch.0
                == epoch::epoch_word(epoch),
        ensures
            final(domain).wf(),
            final(domain)@ == old(domain)@.announce(collector_ptr),
            announced.0.valid(final(domain)@),
            announced.0.collector_ptr == collector_ptr,
            announced.0.token@ == old(domain)@.tokens,
            announced.1 == (old(domain)@.collectors[collector_ptr].announcement != new_epoch.0),
            announced.1 ==> final(domain)@.due(collector_ptr),
            old(domain)@.spares(final(domain)@),
            final(domain).room() == old(domain).room(),
    {
        let ghost before = *domain;
        let collector = domain.collector_mut(collector_ptr);
        collector.state = u8::from(new_epoch);
        let updated = collector.announcement != new_epoch;
        collector.announcement = new_epoch;
        let ghost after = *collector;
        proof {
            domain.model@ = before@.announce(collector_ptr);
            before@.lemma_announce(collector_ptr);
            before.lemma_rep_collector(
                *domain,
                collector_ptr,
                after,
                domain@.collectors[collector_ptr],
            );
            before@.lemma_spares_with(
                collector_ptr,
                domain@.collectors[collector_ptr],
                before@.tokens + 1,
            );
        }
        let guard = Guard {
            collector_ptr,
            token: Ghost(before@.tokens),
            session: Ghost(before@.tokens),
        };
        (guard, updated)
    }

    /// Counts one more [`Guard`](crate::Guard) of a thread that has one.
    fn nest<T, F>(domain: &mut Domain<T, F>, collector_ptr: usize)
        requires
            old(domain).wf(),
            old(domain)@.registered(collector_ptr),
            0 < old(domain)@.collectors[collector_ptr].num_readers < u32::MAX,
            old(domain)@.collectors[collector_ptr].settled(),
            !old(domain)@.collectors[collector_ptr].invalid,
        ensures
            final(domain).wf(),
            final(domain)@ == old(domain)@.nest(collector_ptr),
            old(domain)@.spares(final(domain)@),
            final(domain).room() == old(domain).room(),
    {
        let ghost before = *domain;
        let collector = domain.collector_mut(collector_ptr);
        collector.num_readers = collector.num_readers + 1;
        let ghost updated = *collector;
        proof {
            domain.model@ = before@.nest(collector_ptr);
            before@.lemma_nest(collector_ptr);
            before.lemma_rep_collector(
                *domain,
                collector_ptr,
                updated,
                domain@.collectors[collector_ptr],
            );
            before@.lemma_spares_with(
                collector_ptr,
                domain@.collectors[collector_ptr],
                before@.tokens + 1,
            );
        }
    }

    /// Moves all the lists of instances one place on: the first step of acknowledging a new global
    /// epoch.
    pub fn rotate<T, F>(domain: &mut Domain<T, F>, collector_ptr: usize)
        requires
            old(domain).wf(),
            old(domain)@.registered(collector_ptr),
            old(domain)@.collectors[collector_ptr].num_readers > 0,
            old(domain)@.collectors[collector_ptr].settled(),
            !old(domain)@.collectors[collector_ptr].invalid,
            old(domain)@.due(collector_ptr),
        ensures
            final(domain).wf(),
            final(domain)@ == old(domain)@.rotate(collector_ptr),
            old(domain)@.spares(final(domain)@),
            final(domain).room() == old(domain).room(),
    {
        let ghost before = *domain;
        let collector = domain.collector_mut(collector_ptr);
        collector.garbage_link = collector.next_instance_link.take();
        collector.next_instance_link = collector.previous_instance_link.take();
        collector.previous_instance_link = collector.current_instance_link.take();
        collector.has_garbage = collector.next_instance_link.is_some()
            || collector.previous_instance_link.is_some();
        let ghost updated = *collector;
        proof {
            domain.model@ = before@.rotate(collector_ptr);
            before@.lemma_rotate(collector_ptr);
            reveal(domain::linked);
            before.lemma_rep_collector(
                *domain,
                collector_ptr,
                updated,
                domain@.collectors[collector_ptr],
            );
            before@.lemma_spares_with(
                collector_ptr,
                domain@.collectors[collector_ptr],
                before@.tokens,
            );
        }
    }

    /// Acknowledges a new global epoch.
    ///
    /// # Errors
    ///
    /// If a destructor fails, what has not been reclaimed yet is retired again. Of what was being
    /// destroyed, the rest is given back: it has been reclaimed, and nobody else destroys it.
    pub fn epoch_updated<T, F, D: Destructor<T, F>>(
        domain: &mut Domain<T, F>,
        thread: usize,
        collector_ptr: usize,
        destructor: &mut D,
    ) -> (result: Result<(), Vec<Payload<T, F>>>)
        requires
            old(domain).wf(),
            old(domain)@.registered(collector_ptr),
            old(domain)@.collectors[collector_ptr].num_readers > 0,
            old(domain)@.collectors[collector_ptr].settled(),
            !old(domain)@.collectors[collector_ptr].invalid,
            old(domain)@.due(collector_ptr),
            thread < old(domain)@.locals.len(),
            old(domain).local(thread) == collector_ptr,
        ensures
            final(domain).wf(),
            result is Ok == (final(destructor).failures() == old(destructor).failures()),
            final(destructor).failures() <= old(destructor).failures() + 1,
            result is Err ==> final(destructor).faulted(),
            result is Ok ==> old(domain)@.rotate(collector_ptr).reclaimed(
                final(domain)@,
                collector_ptr,
                old(destructor).log(),
                final(destructor).log(),
            ),
            result matches Err(rest) ==> old(domain)@.rotate(collector_ptr).thwarted(
                final(domain)@,
                collector_ptr,
                old(destructor).log(),
                final(destructor).log(),
                rest@,
            ),
            old(destructor).quiet() ==> {
                &&& result is Ok
                &&& final(destructor).quiet()
                &&& old(domain)@.epoch_updated(collector_ptr).alike(final(domain)@)
            },
            final(domain)@.collectors[collector_ptr].garbage.len() == 0,
            old(domain)@.same_reader(final(domain)@, collector_ptr),
            old(domain)@.spares(final(domain)@),
            old(domain)@.respects(final(domain)@, collector_ptr, old(destructor).estate()),
            old(domain)@.inherits(old(destructor).estate(), final(destructor).estate()),
            final(domain)@.tokens + final(destructor).remaining() <= old(domain)@.tokens + old(
                destructor,
            ).remaining(),
    {
        let ghost before = domain@;
        let ghost log = destructor.log();
        let ghost estate = destructor.estate();
        proof {
            before.lemma_rotate(collector_ptr);
            before.lemma_respects_with(
                collector_ptr,
                before.rotate(collector_ptr).collectors[collector_ptr],
                before.tokens,
                estate,
            );
        }
        Collector::rotate(domain, collector_ptr);
        let ghost rotated = domain@;
        let ghost bound = rotated.rank(collector_ptr);
        let ghost whole = rotated.drop_garbage(collector_ptr);
        let ghost mut reclaimed = rotated;
        let ghost mut count: nat = 0;
        let mut link = Collector::bag_link(domain, collector_ptr, Bag::Garbage);
        proof {
            rotated.lemma_acts_alike(rotated, collector_ptr);
            assert(log + rotated.dropped.skip(rotated.dropped.len() as int) =~= log);
        }
        while link.is_some()
            invariant
                domain.wf(),
                before == old(domain)@,
                before.inv(),
                before.registered(collector_ptr),
                before.locals[thread as int] == collector_ptr,
                thread < before.locals.len(),
                !before.collectors[collector_ptr].invalid,
                before.collectors[collector_ptr].num_readers > 0,
                before.collectors[collector_ptr].settled(),
                rotated == before.rotate(collector_ptr),
                before.same_reader(domain@, collector_ptr),
                link == domain::head_ptr(
                    domain.heap@,
                    domain@.collectors[collector_ptr].garbage,
                ),
                reclaimed == rotated.drop_some(collector_ptr, count),
                reclaimed.inv(),
                reclaimed.collectors.contains_key(collector_ptr),
                reclaimed.collectors[collector_ptr].retirement is None,
                reclaimed.rank(collector_ptr) == bound,
                reclaimed.drop_bag(collector_ptr, Bag::Garbage, bound) == whole,
                whole == rotated.drop_garbage(collector_ptr),
                reclaimed.collectors[collector_ptr].garbage.len() + count
                    == rotated.collectors[collector_ptr].garbage.len(),
                rotated.dropped.is_prefix_of(reclaimed.dropped),
                reclaimed.acts(domain@, collector_ptr),
                domain@.dropped == rotated.dropped,
                log == old(destructor).log(),
                estate == old(destructor).estate(),
                destructor.failures() == old(destructor).failures(),
                destructor.log() == log + reclaimed.dropped.skip(rotated.dropped.len() as int),
                before.inherits(estate, destructor.estate()),
                before.spares(domain@),
                before.respects(domain@, collector_ptr, estate),
                domain@.tokens + destructor.remaining() <= before.tokens + old(
                    destructor,
                ).remaining(),
                old(destructor).quiet() ==> destructor.quiet() && reclaimed.alike(domain@),
            decreases domain@.collectors[collector_ptr].garbage.len(),
        {
            let ghost mid = domain@;
            let ghost destroyed = destructor.log();
            let ghost share = destructor.estate();
            let taken: usize = domain.dropped.len();
            proof {
                mid.lemma_drop_first(collector_ptr, Bag::Garbage);
            }
            Collector::reclaim_first(domain, collector_ptr);
            let ghost shortened = domain@;
            let payloads = domain.take_dropped_after(taken);
            let ghost emptied = domain@;
            let ghost next = reclaimed.drop_first(collector_ptr, Bag::Garbage);
            proof {
                reclaimed.lemma_drop_first(collector_ptr, Bag::Garbage);
                reclaimed.lemma_drop_first_acts(mid, collector_ptr);
                if destructor.quiet() && reclaimed.alike(mid) {
                    reclaimed.lemma_alike_drop_first(mid, collector_ptr, Bag::Garbage);
                }
                mid.lemma_respects_removal(shortened, collector_ptr, mid.rank(collector_ptr));
                shortened.lemma_respects_words(emptied, collector_ptr);
                mid.lemma_respects_transitive(shortened, emptied, collector_ptr, Set::empty());
                mid.lemma_respects_more(emptied, collector_ptr, estate);
                before.lemma_respects_transitive(mid, emptied, collector_ptr, estate);
                before.lemma_spares_transitive(mid, shortened);
                before.lemma_spares_transitive(shortened, emptied);
                assert(emptied.dropped =~= rotated.dropped);
                shortened.lemma_acts_alike(emptied, collector_ptr);
                next.lemma_acts_transitive(shortened, emptied, collector_ptr);
                assert(emptied.registered(collector_ptr));
                assert(next.dropped.skip(rotated.dropped.len() as int) =~= reclaimed.dropped.skip(
                    rotated.dropped.len() as int,
                ) + payloads@);
            }
            let failed = domain.hand_over(thread, payloads, destructor);
            proof {
                emptied.lemma_spares_acts(domain@, collector_ptr);
                before.lemma_spares_transitive(emptied, domain@);
                before.lemma_respects_inherited(emptied, domain@, collector_ptr, estate, share);
                next.lemma_acts_transitive(emptied, domain@, collector_ptr);
                assert(domain@.registered(collector_ptr));
            }
            if let Some(rest) = failed {
                let ghost interrupted = domain@;
                proof {
                    assert(destroyed + payloads@ =~= log + next.dropped.skip(
                        rotated.dropped.len() as int,
                    ));
                    assert(rotated.interrupted_after(
                        interrupted,
                        collector_ptr,
                        count + 1,
                        log,
                        destructor.log(),
                        rest@,
                    ));
                    assert(rotated.interrupted(
                        interrupted,
                        collector_ptr,
                        log,
                        destructor.log(),
                        rest@,
                    ));
                }
                Collector::regain(domain, collector_ptr);
                proof {
                    before.lemma_spares_transitive(interrupted, domain@);
                    interrupted.lemma_respects_more(domain@, collector_ptr, estate);
                    before.lemma_respects_transitive(interrupted, domain@, collector_ptr, estate);
                }
                return Err(rest);
            }
            proof {
                assert(destructor.log() =~= log + next.dropped.skip(
                    rotated.dropped.len() as int,
                ));
                reclaimed = next;
                count = count + 1;
            }
            link = Collector::bag_link(domain, collector_ptr, Bag::Garbage);
        }
        Ok(())
    }

    /// Counts a new [`Guard`](crate::Guard), and announces the epoch if the thread has no other: the
    /// first step of instantiating a guard.
    ///
    /// Returns the guard, and `true` if there is a new epoch to be acknowledged.
    pub fn open_guard<T, F>(domain: &mut Domain<T, F>, collector_ptr: usize) -> (opened: (
        Guard,
        bool,
    ))
        requires
            old(domain).wf(),
            old(domain)@.poised(collector_ptr),
            old(domain)@.collectors[collector_ptr].num_readers < u32::MAX,
        ensures
            final(domain).wf(),
            final(domain)@ == old(domain)@.new_guard(collector_ptr, false),
            opened.0.valid(final(domain)@),
            opened.0.collector_ptr == collector_ptr,
            opened.0.token@ == old(domain)@.tokens,
            opened.1 == old(domain)@.reclaims(collector_ptr, true),
            opened.1 ==> final(domain)@.due(collector_ptr),
            old(domain)@.spares(final(domain)@),
            final(domain).room() == old(domain).room(),
    {
        let ghost before = domain@;
        proof {
            before.lemma_respects_new_guard(collector_ptr, false);
        }
        if domain.collector(collector_ptr).num_readers > 0 {
            Collector::nest(domain, collector_ptr);
            let guard = Guard {
                collector_ptr,
                token: Ghost(before.tokens),
                session: Ghost(domain@.collectors[collector_ptr].session),
            };
            return (guard, false);
        }
        let new_epoch = Collector::load_epoch(domain, collector_ptr);
        let ghost entered = domain@;
        let opened = Collector::announce(domain, collector_ptr, new_epoch);
        proof {
            before.lemma_spares_transitive(entered, domain@);
        }
        opened
    }

    /// Acknowledges a new [`Guard`](crate::Guard) being instantiated.
    ///
    /// # Errors
    ///
    /// If a destructor fails, there is no new guard. See [`Collector::epoch_updated`].
    pub fn new_guard<T, F, D: Destructor<T, F>>(
        domain: &mut Domain<T, F>,
        thread: usize,
        collector_ptr: usize,
        collect_garbage: bool,
        destructor: &mut D,
    ) -> (result: Result<(), Vec<Payload<T, F>>>)
        requires
            old(domain).wf(),
            old(domain)@.poised(collector_ptr),
            old(domain)@.collectors[collector_ptr].num_readers < u32::MAX,
            thread < old(domain)@.locals.len(),
            old(domain).local(thread) == collector_ptr,
        ensures
            final(domain).wf(),
            result is Ok == (final(destructor).failures() == old(destructor).failures()),
            final(destructor).failures() <= old(destructor).failures() + 1,
            result is Err ==> final(destructor).faulted(),
            result is Ok ==> {
                &&& old(domain)@.opened(
                    final(domain)@,
                    collector_ptr,
                    collect_garbage,
                    old(destructor).log(),
                    final(destructor).log(),
                )
                &&& final(domain)@.guarded(collector_ptr, old(domain)@.tokens)
                &&& final(domain)@.collectors[collector_ptr].num_readers
                    == old(domain)@.collectors[collector_ptr].num_readers + 1
            },
            result matches Err(rest) ==> {
                &&& collect_garbage
                &&& old(domain)@.foiled(
                    final(domain)@,
                    collector_ptr,
                    old(destructor).log(),
                    final(destructor).log(),
                    rest@,
                )
                &&& final(domain)@.collectors[collector_ptr].num_readers == 0
            },
            old(destructor).quiet() ==> {
                &&& result is Ok
                &&& final(destructor).quiet()
                &&& old(domain)@.new_guard(collector_ptr, collect_garbage).alike(final(domain)@)
            },
            !old(domain)@.reclaims(collector_ptr, collect_garbage) ==> {
                &&& result is Ok
                &&& *final(destructor) == *old(destructor)
            },
            final(domain)@.dropped == old(domain)@.dropped,
            final(domain)@.locals == old(domain)@.locals,
            result is Ok ==> final(domain)@.epoch == old(domain)@.epoch,
            final(domain)@.poised(collector_ptr),
            old(domain)@.calm(collector_ptr) ==> final(domain)@.calm(collector_ptr),
            result is Ok ==> final(domain)@.usable(collector_ptr, old(domain)@.tokens),
            old(domain)@.spares(final(domain)@),
            old(domain)@.respects(final(domain)@, collector_ptr, old(destructor).estate()),
            old(domain)@.inherits(old(destructor).estate(), final(destructor).estate()),
            result is Ok ==> final(domain)@.tokens + final(destructor).remaining()
                <= old(domain)@.tokens + old(destructor).remaining() + 1,
            final(destructor).remaining() <= old(destructor).remaining(),
    {
        let ghost before = domain@;
        proof {
            before.lemma_respects_new_guard(collector_ptr, false);
            before.lemma_respects_more(
                before.new_guard(collector_ptr, false),
                collector_ptr,
                destructor.estate(),
            );
        }
        let (guard, updated) = Collector::open_guard(domain, collector_ptr);
        if !updated || !collect_garbage {
            return Ok(());
        }
        let ghost announced = domain@;
        let ghost estate = destructor.estate();
        match Collector::epoch_updated(domain, thread, collector_ptr, destructor) {
            Ok(()) => {
                proof {
                    before.lemma_spares_transitive(announced, domain@);
                    before.lemma_respects_transitive(
                        announced,
                        domain@,
                        collector_ptr,
                        estate,
                    );
                }
                Ok(())
            },
            Err(rest) => {
                let ghost regained = domain@;
                Collector::end_guard(domain, guard);
                proof {
                    before.lemma_spares_transitive(announced, regained);
                    before.lemma_spares_transitive(regained, domain@);
                    before.lemma_respects_transitive(
                        announced,
                        regained,
                        collector_ptr,
                        estate,
                    );
                    regained.lemma_respects_end_guard(collector_ptr, before.tokens);
                    before.lemma_respects_inherited(
                        regained,
                        domain@,
                        collector_ptr,
                        estate,
                        set![before.tokens],
                    );
                }
                Err(rest)
            },
        }
    }

    /// Counts one [`Guard`](crate::Guard) less: the first step of dropping it.
    ///
    /// Returns `true` if the thread has no other.
    pub fn leave<T, F>(domain: &mut Domain<T, F>, guard: Guard) -> (last: bool)
        requires
            old(domain).wf(),
            guard.valid(old(domain)@),
        ensures
            final(domain).wf(),
            final(domain)@ == old(domain)@.leave(guard.collector_ptr, guard.token@),
            last == (final(domain)@.collectors[guard.collector_ptr].num_readers == 0),
            old(domain)@.spares(final(domain)@),
            final(domain).room() == old(domain).room(),
    {
        let ghost before = *domain;
        let ghost c = guard.collector_ptr;
        proof {
            before@.lemma_nested(c, guard.token@);
            before@.lemma_leave(c, guard.token@);
        }
        let collector = domain.collector_mut(guard.collector_ptr);
        collector.num_readers = collector.num_readers - 1;
        let last = collector.num_readers == 0;
        let ghost updated = *collector;
        proof {
            domain.model@ = before@.leave(c, guard.token@);
            before.lemma_rep_collector(*domain, c, updated, domain@.collectors[c]);
            before@.lemma_spares_with(c, domain@.collectors[c], before@.tokens);
        }
        last
    }

    /// Makes it known that the thread has no [`Guard`](crate::Guard): the last step of dropping
    /// it.
    pub fn retreat<T, F>(domain: &mut Domain<T, F>, collector_ptr: usize)
        requires
            old(domain).wf(),
            old(domain)@.registered(collector_ptr),
            old(domain)@.collectors[collector_ptr].num_readers == 0,
            old(domain)@.collectors[collector_ptr].pending is None,
            !old(domain)@.collectors[collector_ptr].invalid,
            !old(domain)@.scanning(collector_ptr),
        ensures
            final(domain).wf(),
            final(domain)@ == old(domain)@.retreat(collector_ptr),
            old(domain)@.spares(final(domain)@),
            final(domain).room() == old(domain).room(),
    {
        let ghost before = *domain;
        let collector = domain.collector_mut(collector_ptr);
        collector.next_epoch_update = if collector.next_epoch_update == 0 {
            let has_garbage: usize = if collector.has_garbage {
                1
            } else {
                0
            };
            assert(1usize << 1 == 2 && 0usize << 1 == 0 && 255u8 >> 2usize == 63 && 255u8 >> 0usize
                == 255) by (bit_vector);
            Collector::CADENCE >> (has_garbage << 1)
        } else {
            collector.next_epoch_update.saturating_sub(1)
        };
        let announcement: u8 = u8::from(collector.announcement);
        assert(announcement | (1u8 << 2) == announcement + 4) by (bit_vector)
            requires
                announcement < 4,
        ;
        collector.state = announcement | Collector::INACTIVE;
        let ghost updated = *collector;
        proof {
            domain.model@ = before@.retreat(collector_ptr);
            before@.lemma_retreat(collector_ptr);
            before.lemma_rep_collector(
                *domain,
                collector_ptr,
                updated,
                domain@.collectors[collector_ptr],
            );
            before@.lemma_spares_with(
                collector_ptr,
                domain@.collectors[collector_ptr],
                before@.tokens,
            );
        }
    }

    /// Returns `true` if it is time for the thread to scan the chain.
    pub fn scan_due<T, F>(domain: &Domain<T, F>, collector_ptr: usize) -> (due: bool)
        requires
            domain.wf(),
            domain@.collectors.contains_key(collector_ptr),
        ensures
            due == domain@.scan_due(collector_ptr),
    {
        proof {
            domain@.lemma_head(domain.root.chain_head);
        }
        let collector = domain.collector(collector_ptr);
        collector.next_epoch_update == 0 && (collector.has_garbage || Tag::into_tag(
            domain.root.chain_head,
        ) == Tag::Second)
    }

    /// Locks the chain.
    ///
    /// # Errors
    ///
    /// Returns `Err` with the tagged head of the chain if the chain is locked.
    pub fn lock_chain(root: &mut CollectorRoot) -> (result: Result<usize, usize>)
        ensures
            final(root).epoch == old(root).epoch,
            result is Ok == (old(root).chain_head % 4 == 0 || old(root).chain_head % 4 == 2),
            result matches Ok(head) ==> {
                &&& head == old(root).chain_head - old(root).chain_head % 4
                &&& final(root).chain_head == head + 1
            },
            result matches Err(head) ==> {
                &&& head == old(root).chain_head
                &&& final(root).chain_head == head
            },
    {
        let p: usize = root.chain_head;
        let tag = Tag::into_tag(p);
        if tag == Tag::Neither || tag == Tag::Second {
            root.chain_head = Tag::update_tag(p, Tag::First);
            Ok(Tag::unset_tag(p))
        } else {
            Err(p)
        }
    }

    /// Unlocks the chain.
    pub fn unlock_chain(root: &mut CollectorRoot)
        requires
            old(root).chain_head % 4 == 1 || old(root).chain_head % 4 == 3,
        ensures
            final(root).epoch == old(root).epoch,
            final(root).chain_head == old(root).chain_head - 1,
    {
        let p: usize = root.chain_head;
        let tag = Tag::into_tag(p);
        assert(1usize & !(1usize) == 0 && 3usize & !(1usize) == 2) by (bit_vector);
        root.chain_head = Tag::update_tag(p, Tag::from_bits(tag.bits() & Tag::First.not()));
    }

    /// Marks the head of a chain that there is a potentially unreachable `Collector` in the chain.
    pub fn mark_scan_enforced(root: &mut CollectorRoot)
        ensures
            final(root).epoch == old(root).epoch,
            old(root).chain_head % 4 < 2 ==> final(root).chain_head == old(root).chain_head + 2,
            old(root).chain_head % 4 >= 2 ==> final(root).chain_head == old(root).chain_head,
    {
        let p: usize = root.chain_head;
        let tag = Tag::into_tag(p);
        if tag == Tag::Second || tag == Tag::Both {
            return;
        }
        root.chain_head = Tag::update_tag(p, tag + Tag::Second);
    }

    /// Locks the chain to scan it: the first step of a scan.
    ///
    /// Only one thread that acquires the chain lock is allowed to scan the thread-local
    /// collectors. Returns `None` if the chain is locked.
    ///
    /// A thread scans the chain while it drops its last guard: the guard has been counted off, which
    /// other threads do not know yet. So the thread has no guard left to be dropped in the middle of
    /// the scan, after which it would no longer be in the epoch that it scans for.
    pub fn scan_begin<T, F>(domain: &mut Domain<T, F>, collector_ptr: usize) -> (cursor: Option<
        ScanCursor,
    >)
        requires
            old(domain).wf(),
            old(domain)@.registered(collector_ptr),
            old(domain)@.collectors[collector_ptr].active(),
            old(domain)@.collectors[collector_ptr].num_readers == 0,
        ensures
            final(domain).wf(),
            cursor is Some == (old(domain)@.lock is Free),
            cursor is None ==> final(domain)@ == old(domain)@,
            cursor matches Some(cursor) ==> {
                &&& final(domain)@ == old(domain)@.scan_lock(collector_ptr)
                &&& cursor.follows(final(domain)@)
            },
            old(domain)@.spares(final(domain)@),
            final(domain).room() == old(domain).room(),
    {
        let ghost before = *domain;
        proof {
            before@.lemma_head(before.root.chain_head);
            before@.lemma_spares_self();
        }
        match Collector::lock_chain(&mut domain.root) {
            Ok(current_ptr) => {
                let known_epoch: u8 = domain.collector_state(collector_ptr);
                proof {
                    domain.model@ = before@.scan_lock(collector_ptr);
                    before@.lemma_scan_lock(collector_ptr);
                    before.lemma_chain_frame(*domain);
                    before@.lemma_spares_simple(domain@);
                }
                Some(ScanCursor { collector_ptr, known_epoch, previous_ptr: 0, current_ptr })
            },
            Err(_) => None,
        }
    }

    /// Looks at the next collector of the chain.
    ///
    /// Returns `false` if the thread of that collector is not ready for an epoch update. Otherwise
    /// the scan goes past the collector; an obsolete one is taken out of the chain, and retired. An
    /// obsolete collector at the head of the chain stays there if another one has been put in front
    /// of it since the chain was locked.
    pub fn scan_step<T, F>(domain: &mut Domain<T, F>, cursor: &mut ScanCursor) -> (ready: bool)
        requires
            old(domain).wf(),
            old(cursor).follows(old(domain)@),
            old(cursor).current_ptr != 0,
        ensures
            final(domain).wf(),
            final(cursor).follows(final(domain)@),
            final(cursor).collector_ptr == old(cursor).collector_ptr,
            old(domain)@.lock->Scan_0.rest.len() > 0,
            ready == old(domain)@.ready(old(cursor).collector_ptr, old(cursor).current_ptr),
            !ready ==> final(domain)@ == old(domain)@ && *final(cursor) == *old(cursor),
            ready ==> final(domain)@ == old(domain)@.scan_next(),
            old(domain)@.spares(final(domain)@),
            final(domain).room() == old(domain).room(),
    {
        let ghost before = *domain;
        let ghost scan = before@.lock->Scan_0;
        let collector_ptr: usize = cursor.collector_ptr;
        let current_ptr: usize = cursor.current_ptr;
        proof {
            before@.lemma_passed(scan.rest);
            before.lemma_next_link(scan.rest);
            before@.lemma_head(before.root.chain_head);
            before@.lemma_spares_self();
            if scan.rest.len() > 1 {
                before.lemma_next_link(scan.rest.skip(1));
            }
        }
        let state: u8 = domain.collector(current_ptr).state;
        let next_ptr: usize = domain.collector(current_ptr).next_link;
        assert(state & (1u8 << 3) == 0 <==> state < 8) by (bit_vector)
            requires
                state < 16,
        ;
        if collector_ptr != current_ptr {
            if state & Collector::INVALID == 0 && state != cursor.known_epoch {
                // Not ready for an epoch update.
                return false;
            }
            if state != cursor.known_epoch {
                // The collector is obsolete.
                let previous_ptr: usize = cursor.previous_ptr;
                if previous_ptr != 0 || Tag::unset_tag(domain.root.chain_head) == current_ptr {
                    Collector::unlink(domain, collector_ptr, previous_ptr, current_ptr, next_ptr);
                    cursor.current_ptr = next_ptr;
                    return true;
                }
            }
        }
        cursor.previous_ptr = current_ptr;
        cursor.current_ptr = next_ptr;
        proof {
            domain.model@ = before@.scan_pass();
            before@.lemma_scan_pass();
            before.lemma_chain_frame(*domain);
            before@.lemma_spares_simple(domain@);
        }
        true
    }

    /// Takes an obsolete collector out of the chain, and retires it.
    fn unlink<T, F>(
        domain: &mut Domain<T, F>,
        collector_ptr: usize,
        previous_ptr: usize,
        current_ptr: usize,
        next_ptr: usize,
    )
        requires
            old(domain).wf(),
            old(domain)@.lock matches Lock::Scan(scan) && {
                &&& scan.scanner == collector_ptr
                &&& scan.previous == previous_ptr
                &&& scan.rest.len() > 0
                &&& scan.rest[0] == current_ptr
                &&& model::first_of(scan.rest.skip(1)) == next_ptr
            },
            old(domain)@.collectors[current_ptr].invalid,
            previous_ptr != 0 || model::first_of(old(domain)@.chain) == current_ptr,
        ensures
            final(domain).wf(),
            final(domain)@ == old(domain)@.scan_unlink(),
            old(domain)@.spares(final(domain)@),
            final(domain).room() == old(domain).room(),
    {
        let ghost before = *domain;
        let ghost scan = before@.lock->Scan_0;
        let ghost k = before@.chain.len() - scan.rest.len();
        proof {
            before@.lemma_passed(scan.rest);
            before.lemma_next_link(scan.rest);
            before@.lemma_head(before.root.chain_head);
            before@.lemma_scan_unlink();
            if scan.rest.len() > 1 {
                before.lemma_next_link(scan.rest.skip(1));
                assert(before@.occupied(next_ptr));
            }
            if previous_ptr == 0 {
                assert(before@.chain[0] == before@.chain[k]);
                assert(k == 0);
            } else {
                assert(before@.passed(scan.rest).last() == before@.chain[k - 1]);
                assert(before@.registered(previous_ptr)) by {
                    assert(before@.chain.contains(before@.chain[k - 1]));
                }
            }
            assert(before@.chain.skip(k + 1) =~= scan.rest.skip(1));
        }
        if previous_ptr == 0 {
            let p: usize = domain.root.chain_head;
            domain.root.chain_head = Tag::update_tag(next_ptr, Tag::into_tag(p));
        } else {
            let previous = domain.collector_mut(previous_ptr);
            previous.next_link = next_ptr;
        }
        proof {
            domain.model@ = Model {
                chain: before@.chain.take(k) + before@.chain.skip(k + 1),
                ..before@
            };
            before.lemma_rep_unlink(*domain, k);
        }
        let ghost unlinked = *domain;
        Collector::push(domain, collector_ptr, current_ptr);
        proof {
            domain.model@ = before@.scan_unlink();
            unlinked.lemma_rep_collect(
                *domain,
                collector_ptr,
                current_ptr,
                domain.heap@[collector_ptr]->Collector_0,
            );
            unlinked.lemma_chain_frame(*domain);
            before@.lemma_spares_unlink();
        }
    }

    /// Updates the global epoch once all the collectors of the chain have been looked at.
    pub fn scan_advance<T, F>(domain: &mut Domain<T, F>, cursor: &ScanCursor)
        requires
            old(domain).wf(),
            cursor.follows(old(domain)@),
            cursor.current_ptr == 0,
        ensures
            final(domain).wf(),
            final(domain)@ == old(domain)@.scan_advance(),
            old(domain)@.lock->Scan_0.rest.len() == 0,
            old(domain)@.epoch <= final(domain)@.epoch <= old(domain)@.epoch + 1,
            cursor.follows(final(domain)@),
            old(domain)@.spares(final(domain)@),
            final(domain).room() == old(domain).room(),
    {
        let ghost before = *domain;
        proof {
            let rest = before@.lock->Scan_0.rest;
            if rest.len() > 0 {
                before.lemma_next_link(rest);
            }
        }
        domain.root.epoch = u8::from(Epoch::from(cursor.known_epoch).next());
        proof {
            domain.model@ = before@.scan_advance();
            before@.lemma_scan_advance();
            before.lemma_chain_frame(*domain);
            before@.lemma_spares_simple(domain@);
        }
    }

    /// Unlocks the chain: the last step of a scan.
    pub fn scan_end<T, F>(domain: &mut Domain<T, F>, cursor: ScanCursor)
        requires
            old(domain).wf(),
            cursor.follows(old(domain)@),
        ensures
            final(domain).wf(),
            final(domain)@ == old(domain)@.unlock(),
            old(domain)@.spares(final(domain)@),
            final(domain).room() == old(domain).room(),
    {
        let ghost before = *domain;
        proof {
            before@.lemma_head(before.root.chain_head);
        }
        Collector::unlock_chain(&mut domain.root);
        proof {
            domain.model@ = before@.unlock();
            before@.lemma_unlock();
            before.lemma_chain_frame(*domain);
            before@.lemma_spares_simple(domain@);
        }
    }

    /// Scans the [`Collector`] instances to update the global epoch, while the thread drops its last
    /// guard. See [`Collector::scan_begin`].
    ///
    /// Returns `true` if the global epoch has been updated.
    pub fn scan<T, F>(domain: &mut Domain<T, F>, collector_ptr: usize) -> (updated: bool)
        requires
            old(domain).wf(),
            old(domain)@.registered(collector_ptr),
            old(domain)@.collectors[collector_ptr].active(),
            old(domain)@.collectors[collector_ptr].num_readers == 0,
        ensures
            final(domain).wf(),
            final(domain)@ == old(domain)@.scan(collector_ptr),
            updated == (old(domain)@.lock is Free && old(domain)@.all_ready(
                collector_ptr,
                old(domain)@.chain,
            )),
            old(domain)@.spares(final(domain)@),
            final(domain).room() == old(domain).room(),
    {
        let ghost before = domain@;
        let mut cursor = match Collector::scan_begin(domain, collector_ptr) {
            Some(cursor) => cursor,
            None => {
                return false;
            },
        };
        let ghost whole = domain@.scan_run();
        let ghost all = before.all_ready(collector_ptr, before.chain);
        while cursor.current_ptr != 0
            invariant
                domain.wf(),
                before == old(domain)@,
                before.inv(),
                cursor.follows(domain@),
                cursor.collector_ptr == collector_ptr,
                domain@.scan_run() == whole,
                whole.unlock() == before.scan(collector_ptr),
                before.lock is Free,
                domain@.all_ready(collector_ptr, domain@.lock->Scan_0.rest) == all,
                all == before.all_ready(collector_ptr, before.chain),
                before.spares(domain@),
                domain.room() == old(domain).room(),
            decreases domain@.lock->Scan_0.rest.len(),
        {
            let ghost mid = domain@;
            if !Collector::scan_step(domain, &mut cursor) {
                let ghost stopped = domain@;
                Collector::scan_end(domain, cursor);
                proof {
                    assert(!mid.ready(collector_ptr, mid.lock->Scan_0.rest[0]));
                    before.lemma_spares_transitive(stopped, domain@);
                }
                return false;
            }
            proof {
                mid.lemma_ready_rest();
                before.lemma_spares_transitive(mid, domain@);
            }
        }
        let ghost mid = domain@;
        Collector::scan_advance(domain, &cursor);
        let ghost advanced = domain@;
        Collector::scan_end(domain, cursor);
        proof {
            before.lemma_spares_transitive(mid, advanced);
            before.lemma_spares_transitive(advanced, domain@);
        }
        true
    }

    /// Acknowledges an existing [`Guard`](crate::Guard) being dropped.
    pub fn end_guard<T, F>(domain: &mut Domain<T, F>, guard: Guard)
        requires
            old(domain).wf(),
            guard.valid(old(domain)@),
        ensures
            final(domain).wf(),
            final(domain)@ == old(domain)@.end_guard(guard.collector_ptr, guard.token@),
            old(domain)@.spares(final(domain)@),
            final(domain).room() == old(domain).room(),
    {
        let ghost before = domain@;
        let collector_ptr: usize = guard.collector_ptr;
        proof {
            before.lemma_nested(guard.collector_ptr, guard.token@);
            before.lemma_leave(guard.collector_ptr, guard.token@);
        }
        if !Collector::leave(domain, guard) {
            return;
        }
        let ghost left = domain@;
        proof {
            left.lemma_scan(collector_ptr);
            left.lemma_spares_self();
        }
        if Collector::scan_due(domain, collector_ptr) {
            Collector::scan(domain, collector_ptr);
        }
        let ghost scanned = domain@;
        Collector::retreat(domain, collector_ptr);
        proof {
            before.lemma_spares_transitive(left, scanned);
            before.lemma_spares_transitive(scanned, domain@);
        }
    }

    /// Returns the current epoch.
    pub fn current_epoch<T, F>(domain: &Domain<T, F>) -> (epoch: Epoch)
        requires
            domain.rep(),
        ensures
            epoch.0 == epoch::epoch_word(domain@.epoch),
    {
        Epoch::from(domain.root.epoch)
    }

    /// Accelerates garbage collection.
    pub fn accelerate<T, F>(domain: &mut Domain<T, F>, collector_ptr: usize)
        requires
            old(domain).wf(),
            old(domain)@.collectors.contains_key(collector_ptr),
            old(domain)@.collectors[collector_ptr].retirement is None,
            !old(domain)@.collectors[collector_ptr].invalid,
        ensures
            final(domain).wf(),
            final(domain)@ == old(domain)@.accelerate(collector_ptr),
            old(domain)@.spares(final(domain)@),
            final(domain).room() == old(domain).room(),
    {
        let ghost before = *domain;
        domain.mark();
        let ghost marked = *domain;
        let collector = domain.collector_mut(collector_ptr);
        collector.next_epoch_update = 0;
        let ghost updated = *collector;
        proof {
            domain.model@ = marked@.hasten(collector_ptr);
            marked@.lemma_hasten(collector_ptr);
            marked.lemma_rep_collector(
                *domain,
                collector_ptr,
                updated,
                domain@.collectors[collector_ptr],
            );
            marked@.lemma_spares_with(
                collector_ptr,
                domain@.collectors[collector_ptr],
                marked@.tokens,
            );
            before@.lemma_spares_transitive(marked@, domain@);
        }
    }

    /// Allocates a new [`Collector`].
    pub fn allocate<T, F>(domain: &mut Domain<T, F>) -> (collector_ptr: usize)
        requires
            old(domain).wf(),
            old(domain).room(),
        ensures
            final(domain).wf(),
            !old(domain)@.occupied(collector_ptr),
            collector_ptr != 0,
            collector_ptr % 4 == 0,
            final(domain)@ == old(domain)@.enlist(collector_ptr),
            old(domain)@.spares(final(domain)@),
    {
        let ghost before = *domain;
        proof {
            before@.lemma_head(before.root.chain_head);
        }
        let current: usize = domain.root.chain_head;
        let mut collector = Collector::new();
        collector.next_link = Tag::unset_tag(current);
        let ghost placed = collector;
        let collector_ptr: usize = domain.heap.place(Body::Collector(collector));
        domain.root.chain_head = Tag::update_tag(collector_ptr, Tag::into_tag(current));
        proof {
            domain.model@ = before@.enlist(collector_ptr);
            assert(before.heap@.contains_key(collector_ptr) == before@.occupied(collector_ptr));
            before@.lemma_enlist(collector_ptr);
            before.lemma_rep_enlist(*domain, collector_ptr, placed);
            before@.lemma_spares_enlist(collector_ptr);
        }
        collector_ptr
    }

    /// Returns the [`Collector`] attached to the current thread.
    pub fn current<T, F>(domain: &mut Domain<T, F>, thread: usize) -> (collector_ptr: usize)
        requires
            old(domain).wf(),
            thread < old(domain)@.locals.len(),
            old(domain)@.locals[thread as int] == 0 ==> old(domain).room(),
        ensures
            final(domain).wf(),
            collector_ptr != 0,
            collector_ptr % 4 == 0,
            old(domain)@.locals[thread as int] != 0 ==> {
                &&& collector_ptr == old(domain)@.locals[thread as int]
                &&& *final(domain) == *old(domain)
            },
            old(domain)@.locals[thread as int] == 0 ==> {
                &&& !old(domain)@.occupied(collector_ptr)
                &&& final(domain)@ == old(domain)@.enrol(thread as int, collector_ptr)
            },
            old(domain)@.spares(final(domain)@),
    {
        let ghost before = domain@;
        proof {
            before.lemma_spares_self();
        }
        let collector_ptr: usize = domain.locals[thread];
        if collector_ptr == 0 {
            let collector_ptr: usize = CollectorAnchor.allocate(domain);
            let ghost allocated = domain@;
            proof {
                if allocated.locals.contains(collector_ptr) {
                    let i = allocated.locals.index_of(collector_ptr);
                    assert(before.locals[i] == collector_ptr);
                    assert(before.occupied(collector_ptr));
                }
            }
            domain.set_local(thread, collector_ptr);
            proof {
                before.lemma_spares_transitive(allocated, domain@);
            }
            collector_ptr
        } else {
            assert(domain@.occupied(collector_ptr));
            collector_ptr
        }
    }

    /// Passes its garbage instances to other threads.
    pub fn pass_garbage<T, F>(domain: &mut Domain<T, F>, thread: usize) -> (passed: bool)
        requires
            old(domain).wf(),
            old(domain)@.at_rest(thread as int),
        ensures
            final(domain).wf(),
            final(domain)@ == old(domain)@.pass_garbage(thread as int),
            passed == (old(domain)@.locals[thread as int] == 0
                || old(domain)@.collectors[old(domain)@.locals[thread as int]].num_readers == 0),
            old(domain)@.honours(final(domain)@, Set::empty()),
            final(domain).room() == old(domain).room(),
    {
        let ghost before = *domain;
        proof {
            before@.lemma_honours_pass_garbage(thread as int);
        }
        let collector_ptr: usize = domain.locals[thread];
        if collector_ptr == 0 {
            return true;
        }
        if domain.collector(collector_ptr).num_readers != 0 {
            return false;
        }
        if domain.collector(collector_ptr).has_garbage {
            domain.set_local(thread, 0);
            Collector::invalidate(domain, collector_ptr);
            domain.mark();
        }
        true
    }

    /// Sets the bit that says that the thread has given up its collector.
    pub fn invalidate<T, F>(domain: &mut Domain<T, F>, collector_ptr: usize)
        requires
            old(domain).wf(),
            old(domain)@.registered(collector_ptr),
            !old(domain)@.collectors[collector_ptr].invalid,
            old(domain)@.collectors[collector_ptr].garbage.len() == 0,
            old(domain)@.collectors[collector_ptr].pending is None,
            !old(domain)@.scanning(collector_ptr),
            !old(domain)@.locals.contains(collector_ptr),
        ensures
            final(domain).wf(),
            final(domain)@ == old(domain)@.invalidate(collector_ptr),
            old(domain)@.spares(final(domain)@),
            final(domain).room() == old(domain).room(),
    {
        let ghost before = *domain;
        let collector = domain.collector_mut(collector_ptr);
        let state: u8 = collector.state;
        assert(state | (1u8 << 3) == state + 8) by (bit_vector)
            requires
                state < 8,
        ;
        collector.state = state | Collector::INVALID;
        let ghost updated = *collector;
        proof {
            domain.model@ = before@.invalidate(collector_ptr);
            before@.lemma_invalidate(collector_ptr);
            before.lemma_rep_collector(
                *domain,
                collector_ptr,
                updated,
                domain@.collectors[collector_ptr],
            );
            before@.lemma_spares_with(
                collector_ptr,
                domain@.collectors[collector_ptr],
                before@.tokens,
            );
        }
    }

    /// Takes an instance that is about to be reclaimed back into the list of recently retired
    /// ones.
    pub fn recollect<T, F>(domain: &mut Domain<T, F>, collector_ptr: usize)
        requires
            old(domain).wf(),
            old(domain)@.registered(collector_ptr),
            old(domain)@.collectors[collector_ptr].garbage.len() > 0,
            old(domain)@.collectors[collector_ptr].settled(),
        ensures
            final(domain).wf(),
            final(domain)@ == old(domain)@.recollect(collector_ptr),
            old(domain)@.spares(final(domain)@),
            final(domain).room() == old(domain).room(),
    {
        let ghost before = *domain;
        let ghost model = before@.collectors[collector_ptr];
        let ghost x = model.garbage[0];
        proof {
            assert(model.garbage.contains(x));
            assert(model.holds(x));
            assert(before@.keeps(collector_ptr, x));
            assert(before@.occupied(x) && before@.occupied(collector_ptr));
            assert(before.heap@.contains_key(x));
            if model.current.len() > 0 {
                assert(model.current.contains(model.current[0]));
                assert(model.holds(model.current[0]));
                assert(before@.keeps(collector_ptr, model.current[0]));
                assert(before@.occupied(model.current[0]));
            }
        }
        let instance_ptr = match Collector::bag_link(domain, collector_ptr, Bag::Garbage) {
            Some(instance_ptr) => instance_ptr,
            None => vstd::pervasive::unreached(),
        };
        let current_link = Collector::bag_link(domain, collector_ptr, Bag::Current);
        let garbage_link = domain.heap.get(instance_ptr.data).next_ptr();
        let body = domain.heap.get_mut(instance_ptr.data);
        body.set_next_ptr(current_link);
        match domain.heap.get_mut(collector_ptr) {
            Body::Collector(collector) => {
                collector.garbage_link = garbage_link;
                collector.current_instance_link = Some(instance_ptr);
                let next_epoch_update: u8 = collector.next_epoch_update.saturating_sub(1);
                collector.next_epoch_update = if next_epoch_update < Collector::CADENCE / 4 {
                    next_epoch_update
                } else {
                    Collector::CADENCE / 4
                };
                collector.has_garbage = true;
            },
            _ => {},
        }
        proof {
            domain.model@ = before@.recollect(collector_ptr);
            before@.lemma_recollect(collector_ptr);
            before.lemma_rep_recollect(
                *domain,
                collector_ptr,
                domain.heap@[collector_ptr]->Collector_0,
            );
            before@.lemma_spares_with(
                collector_ptr,
                domain@.collectors[collector_ptr],
                before@.tokens,
            );
        }
    }

    /// Drops the first instance that is due to be reclaimed: one of the steps of acknowledging a
    /// new global epoch.
    pub fn reclaim_first<T, F>(domain: &mut Domain<T, F>, collector_ptr: usize)
        requires
            old(domain).wf(),
            old(domain)@.registered(collector_ptr),
            old(domain)@.collectors[collector_ptr].garbage.len() > 0,
        ensures
            final(domain).wf(),
            final(domain)@ == old(domain)@.drop_first(collector_ptr, Bag::Garbage),
            old(domain)@.spares(final(domain)@),
            final(domain).room(),
    {
        proof {
            domain@.lemma_drop_first(collector_ptr, Bag::Garbage);
            domain@.lemma_spares_first(collector_ptr);
        }
        Collector::drop_first(domain, collector_ptr, Bag::Garbage);
    }

    /// Drops the next instance that is due to be reclaimed: the step of acknowledging a new global
    /// epoch that is repeated until it is done.
    ///
    /// Returns `false` if there is none.
    pub fn reclaim_next<T, F>(domain: &mut Domain<T, F>, collector_ptr: usize) -> (reclaimed: bool)
        requires
            old(domain).wf(),
            old(domain)@.registered(collector_ptr),
        ensures
            final(domain).wf(),
            reclaimed == (old(domain)@.collectors[collector_ptr].garbage.len() > 0),
            !reclaimed ==> final(domain)@ == old(domain)@,
            reclaimed ==> final(domain)@ == old(domain)@.drop_first(collector_ptr, Bag::Garbage),
            old(domain)@.spares(final(domain)@),
    {
        proof {
            domain@.lemma_spares_self();
        }
        if Collector::bag_link(domain, collector_ptr, Bag::Garbage).is_none() {
            return false;
        }
        Collector::reclaim_first(domain, collector_ptr);
        true
    }

    /// Takes all the instances that are about to be reclaimed back into the list of recently
    /// retired ones.
    pub fn regain<T, F>(domain: &mut Domain<T, F>, collector_ptr: usize)
        requires
            old(domain).wf(),
            old(domain)@.registered(collector_ptr),
            old(domain)@.collectors[collector_ptr].settled(),
            old(domain)@.collectors[collector_ptr].num_readers > 0,
        ensures
            final(domain).wf(),
            final(domain)@ == old(domain)@.recollect_all(collector_ptr),
            final(domain)@.collectors[collector_ptr].garbage.len() == 0,
            final(domain)@.tokens == old(domain)@.tokens,
            old(domain)@.same_reader(final(domain)@, collector_ptr),
            old(domain)@.spares(final(domain)@),
            old(domain)@.respects(final(domain)@, collector_ptr, Set::empty()),
            final(domain).room() == old(domain).room(),
    {
        let ghost before = domain@;
        proof {
            before.lemma_spares_self();
            before.lemma_respects_words(before, collector_ptr);
        }
        let ghost whole = before.recollect_all(collector_ptr);
        let mut link = Collector::bag_link(domain, collector_ptr, Bag::Garbage);
        while link.is_some()
            invariant
                domain.wf(),
                before.inv(),
                before == old(domain)@,
                before.registered(collector_ptr),
                before.collectors[collector_ptr].settled(),
                before.collectors[collector_ptr].num_readers > 0,
                before.same_reader(domain@, collector_ptr),
                domain@.tokens == before.tokens,
                domain@.recollect_all(collector_ptr) == whole,
                whole == before.recollect_all(collector_ptr),
                link == domain::head_ptr(
                    domain.heap@,
                    domain@.collectors[collector_ptr].garbage,
                ),
                before.spares(domain@),
                before.respects(domain@, collector_ptr, Set::empty()),
                domain.room() == old(domain).room(),
            decreases domain@.collectors[collector_ptr].garbage.len(),
        {
            let ghost mid = domain@;
            Collector::recollect(domain, collector_ptr);
            proof {
                before.lemma_spares_transitive(mid, domain@);
                mid.lemma_respects_with(
                    collector_ptr,
                    domain@.collectors[collector_ptr],
                    mid.tokens,
                    Set::empty(),
                );
                before.lemma_respects_transitive(mid, domain@, collector_ptr, Set::empty());
                assert(domain@.registered(collector_ptr));
            }
            link = Collector::bag_link(domain, collector_ptr, Bag::Garbage);
        }
    }

    /// Takes back what [`Collector::announce`] and [`Collector::rotate`] have done after something
    /// went wrong during dropping an instance: what has not been dropped is retired again, and the
    /// thread has no [`Guard`](crate::Guard).
    pub fn unwind<T, F>(domain: &mut Domain<T, F>, collector_ptr: usize) -> (guard: Ghost<nat>)
        requires
            old(domain).wf(),
            old(domain)@.registered(collector_ptr),
            !old(domain)@.collectors[collector_ptr].invalid,
            old(domain)@.collectors[collector_ptr].pending is None,
            old(domain)@.collectors[collector_ptr].num_readers == 1,
        ensures
            final(domain).wf(),
            old(domain)@.collectors[collector_ptr].guards == set![guard@],
            final(domain)@ == old(domain)@.recollect_all(collector_ptr).end_guard(
                collector_ptr,
                guard@,
            ),
            old(domain)@.spares(final(domain)@),
            final(domain).room() == old(domain).room(),
    {
        let ghost before = domain@;
        let ghost token = before.collectors[collector_ptr].guards.choose();
        proof {
            let guards = before.collectors[collector_ptr].guards;
            assert(before.collectors[collector_ptr].local_ok());
            vstd::set_lib::lemma_set_empty_equivalency_len(guards);
            assert(guards.remove(token).len() == 0);
            vstd::set_lib::lemma_set_empty_equivalency_len(guards.remove(token));
            assert(guards =~= set![token]);
        }
        Collector::regain(domain, collector_ptr);
        let ghost recollected = domain@;
        let guard = Guard {
            collector_ptr,
            token: Ghost(token),
            session: Ghost(domain@.collectors[collector_ptr].session),
        };
        Collector::end_guard(domain, guard);
        proof {
            before.lemma_spares_transitive(recollected, domain@);
        }
        Ghost(token)
    }
}

} // verus!

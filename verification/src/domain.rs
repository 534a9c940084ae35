//! The memory that threads share, and how it stands for a [`Model`].

use crate::collectible::{Collectible, InstancePtr, Link};
use crate::collector::{Collector, CollectorRoot};
use crate::heap::{Body, Heap};
use crate::model::{Bag, CollectorModel, InstanceModel, Model, Payload};
use crate::{epoch, model};
use vstd::prelude::*;

verus! {

/// [`Domain`] is the memory that a number of threads share: the words that every thread may read
/// and write, and what the threads have allocated.
///
/// Every method of the domain, and every function that takes one, is one step of a thread: nothing
/// of what other threads do comes in between. Functions that consist of several steps also exist
/// in the form of these steps.
///
/// A domain drops no instances, and executes no closures. What has been reclaimed is handed out by
/// [`Domain::take_dropped`] to be destroyed.
pub struct Domain<T, F> {
    /// The collectors and the instances.
    pub heap: Heap<T, F>,
    /// The global epoch and the head of the chain of collectors.
    pub root: CollectorRoot,
    /// The address of the collector of each thread, null if it has none.
    pub locals: Vec<usize>,
    /// What has been taken off the collectors to be destroyed, the earliest first.
    pub dropped: Vec<Payload<T, F>>,
    /// What all of this amounts to.
    pub model: Ghost<Model<T, F>>,
}

/// The pointer to the first item of a list, or null.
pub open spec fn head_ptr<T, F>(heap: Map<usize, Body<T, F>>, list: Seq<usize>) -> Option<
    InstancePtr,
> {
    if list.len() == 0 {
        None
    } else {
        Some(InstancePtr { data: list[0], vtable: heap[list[0]].vtable_word() })
    }
}

/// The links of the instances in the list lead from one to the next.
#[verifier::opaque]
pub open spec fn linked<T, F>(heap: Map<usize, Body<T, F>>, list: Seq<usize>) -> bool {
    forall|i: int|
        0 <= i < list.len() ==> {
            &&& heap.contains_key(#[trigger] list[i])
            &&& heap[list[i]].link().target() == head_ptr(heap, list.skip(i + 1))
        }
}

/// The collector in memory stands for the model.
pub open spec fn collector_rep<T, F>(
    heap: Map<usize, Body<T, F>>,
    collector: Collector,
    model: CollectorModel,
) -> bool {
    &&& collector.state == model.state()
    &&& collector.announcement.0 == model.announcement
    &&& collector.next_epoch_update == model.next_epoch_update
    &&& collector.has_garbage == model.has_garbage
    &&& collector.num_readers == model.num_readers
    &&& collector.previous_instance_link == head_ptr(heap, model.previous)
    &&& collector.current_instance_link == head_ptr(heap, model.current)
    &&& collector.next_instance_link == head_ptr(heap, model.next)
    &&& collector.garbage_link == head_ptr(heap, model.garbage)
    &&& linked(heap, model.previous)
    &&& linked(heap, model.current)
    &&& linked(heap, model.next)
    &&& linked(heap, model.garbage)
}

/// The value of the reference counter of an instance that has not been retired.
pub open spec fn ref_cnt_word<T, F>(model: InstanceModel<T, F>) -> int {
    if model.shared && model.refs.len() > 0 {
        2 * model.refs.len() - 1
    } else {
        0
    }
}

/// The instance in memory stands for the model.
pub open spec fn instance_rep<T, F>(body: Body<T, F>, model: InstanceModel<T, F>) -> bool {
    match (body, model.body) {
        (Body::Instance(counted), Payload::Instance(value)) => {
            &&& counted.instance == value
            &&& model.retirement is None ==> counted.count() == ref_cnt_word(model)
        },
        (Body::Closure(closure), Payload::Closure(deferred)) => {
            &&& closure.f == deferred.f
            &&& deferred.link == (Link { ref_cnt: 0, ptr: 0 })
        },
        _ => false,
    }
}

impl<T, F> View for Domain<T, F> {
    type V = Model<T, F>;

    open spec fn view(&self) -> Model<T, F> {
        self.model@
    }
}

impl<T, F> Domain<T, F> {
    /// The collectors in memory stand for those of the model.
    pub open spec fn collectors_rep(self) -> bool {
        forall|c: usize| #[trigger]
            self@.collectors.contains_key(c) ==> {
                &&& self.heap@.contains_key(c)
                &&& self.heap@[c] matches Body::Collector(collector) && collector_rep(
                    self.heap@,
                    collector,
                    self@.collectors[c],
                )
            }
    }

    /// The collectors of the chain are linked to each other.
    #[verifier::opaque]
    pub open spec fn chain_rep(self) -> bool {
        forall|i: int|
            0 <= i < self@.chain.len() ==> (self.heap@[#[trigger] self@.chain[i]] matches Body::Collector(
                collector,
            ) && collector.next_link == model::first_of(self@.chain.skip(i + 1)))
    }

    /// The instances in memory stand for those of the model.
    pub open spec fn instances_rep(self) -> bool {
        forall|x: usize| #[trigger]
            self@.instances.contains_key(x) ==> {
                &&& self.heap@.contains_key(x)
                &&& instance_rep(self.heap@[x], self@.instances[x])
            }
    }

    /// The memory stands for the model.
    pub open spec fn rep(self) -> bool {
        &&& self.heap.wf()
        &&& self.root.epoch == epoch::epoch_word(self@.epoch)
        &&& self.root.chain_head == model::first_of(self@.chain) + self@.tag@
        &&& forall|a: usize| #[trigger] self.heap@.contains_key(a) == self@.occupied(a)
        &&& self.collectors_rep()
        &&& self.chain_rep()
        &&& self.instances_rep()
        &&& self.locals@ == self@.locals
        &&& self.dropped@ == self@.dropped
    }

    /// The memory stands for a valid state of the threads.
    pub open spec fn wf(self) -> bool {
        &&& self.rep()
        &&& self@.inv()
    }

    /// There is memory left.
    pub open spec fn room(self) -> bool {
        self.heap.room()
    }

    /// The collector of a thread, null if it has none.
    pub open spec fn local(self, thread: usize) -> usize {
        self@.locals[thread as int]
    }

    /// See [`Model::at_rest`].
    pub open spec fn rests(self, thread: usize) -> bool {
        self@.at_rest(thread as int)
    }

    /// The thread can retire instances.
    pub open spec fn accepts(self, thread: usize) -> bool {
        &&& self@.accepting(thread as int)
        &&& self.local(thread) == 0 ==> self.room()
    }

    /// The thread can have another guard.
    pub open spec fn guardable(self, thread: usize) -> bool {
        &&& self.rests(thread)
        &&& self.local(thread) == 0 ==> self.room()
        &&& self.local(thread) != 0 ==> self@.collectors[self.local(thread)].num_readers < u32::MAX
    }

    /// Nothing but the memory at one address, and the model, differs.
    pub open spec fn same_but_heap(self, post: Self) -> bool {
        &&& post.root == self.root
        &&& post.locals@ == self.locals@
        &&& post.dropped@ == self.dropped@
        &&& post.heap.room() == self.heap.room()
    }

    /// The collectors that are left in memory lead to the same collectors as before.
    pub open spec fn same_next_links(self, post: Self) -> bool {
        forall|d: usize| #[trigger]
            post@.collectors.contains_key(d) ==> {
                &&& self@.collectors.contains_key(d)
                &&& post.heap@[d]->Collector_0.next_link == self.heap@[d]->Collector_0.next_link
            }
    }

    /// Creates a [`Domain`] without threads and instances.
    pub fn new() -> (domain: Self)
        ensures
            domain.wf(),
            domain.room(),
            domain@ == Model::<T, F>::new(),
    {
        let domain = Domain {
            heap: Heap::new(),
            root: CollectorRoot { epoch: 0, chain_head: 0 },
            locals: Vec::new(),
            dropped: Vec::new(),
            model: Ghost(Model::new()),
        };
        proof {
            reveal(Domain::chain_rep);
            Model::<T, F>::lemma_new();
        }
        domain
    }

    /// Registers another thread, and returns its number.
    pub fn attach(&mut self) -> (thread: usize)
        requires
            old(self).wf(),
        ensures
            final(self).wf(),
            final(self)@ == old(self)@.attach(),
            thread == old(self)@.locals.len(),
            final(self)@.at_rest(thread as int),
            old(self)@.spares(final(self)@),
            final(self).room() == old(self).room(),
    {
        let ghost before = *self;
        let thread: usize = self.locals.len();
        self.locals.push(0);
        proof {
            self.model@ = before@.attach();
            before@.lemma_attach();
            before.lemma_chain_frame(*self);
            before@.lemma_spares_simple(self@);
        }
        thread
    }

    /// Returns `true` if there is memory left.
    pub fn has_room(&self) -> (room: bool)
        requires
            self.wf(),
        ensures
            room == self.room(),
    {
        self.heap.has_room()
    }

    /// Takes all that has been taken off the collectors to be destroyed, the earliest first.
    pub fn take_dropped(&mut self) -> (dropped: Vec<Payload<T, F>>)
        requires
            old(self).wf(),
        ensures
            final(self).wf(),
            dropped@ == old(self)@.dropped,
            final(self)@ == (Model { dropped: Seq::empty(), ..old(self)@ }),
            old(self)@.spares(final(self)@),
            final(self).room() == old(self).room(),
    {
        let ghost before = *self;
        let mut dropped: Vec<Payload<T, F>> = Vec::new();
        std::mem::swap(&mut self.dropped, &mut dropped);
        proof {
            self.model@ = Model { dropped: Seq::empty(), ..before@ };
            before@.lemma_lock_frame(self@);
            before@.lemma_same_nodes(self@);
            before.lemma_chain_frame(*self);
            before@.lemma_spares_simple(self@);
        }
        dropped
    }

    /// Marks the head of the chain that there is a potentially unreachable collector in the chain.
    pub fn mark(&mut self)
        requires
            old(self).wf(),
        ensures
            final(self).wf(),
            final(self)@ == old(self)@.mark(),
            old(self)@.spares(final(self)@),
            final(self).room() == old(self).room(),
    {
        let ghost before = *self;
        proof {
            before@.lemma_head(before.root.chain_head);
        }
        Collector::mark_scan_enforced(&mut self.root);
        proof {
            self.model@ = before@.mark();
            before@.lemma_mark();
            before.lemma_chain_frame(*self);
            before@.lemma_spares_simple(self@);
        }
    }

    /// Replaces the collector of a thread.
    pub fn set_local(&mut self, thread: usize, c: usize)
        requires
            old(self).wf(),
            thread < old(self)@.locals.len(),
            c != 0 ==> {
                &&& old(self)@.collectors.contains_key(c)
                &&& old(self)@.collectors[c].retirement is None
                &&& !old(self)@.collectors[c].invalid
                &&& !old(self)@.locals.contains(c)
            },
        ensures
            final(self).wf(),
            final(self)@ == old(self)@.set_local(thread as int, c),
            old(self)@.spares(final(self)@),
            final(self).room() == old(self).room(),
    {
        let ghost before = *self;
        self.locals.set(thread, c);
        proof {
            self.model@ = before@.set_local(thread as int, c);
            before@.lemma_set_local(thread as int, c);
            before.lemma_chain_frame(*self);
            before@.lemma_spares_simple(self@);
        }
    }

    /// Returns a collector.
    pub fn collector(&self, c: usize) -> (collector: &Collector)
        requires
            self.rep(),
            self@.collectors.contains_key(c),
        ensures
            self.heap@[c] == Body::<T, F>::Collector(*collector),
            collector_rep(self.heap@, *collector, self@.collectors[c]),
    {
        match self.heap.get(c) {
            Body::Collector(collector) => collector,
            _ => vstd::pervasive::unreached(),
        }
    }

    /// Returns the state of a collector.
    pub fn collector_state(&self, c: usize) -> (state: u8)
        requires
            self.heap@.contains_key(c),
            self.heap@[c] is Collector,
        ensures
            state == self.heap@[c]->Collector_0.state,
    {
        match self.heap.get(c) {
            Body::Collector(collector) => collector.state,
            _ => vstd::pervasive::unreached(),
        }
    }

    /// Returns a mutable reference to a collector.
    pub fn collector_mut(&mut self, c: usize) -> (collector: &mut Collector)
        requires
            old(self).rep(),
            old(self)@.collectors.contains_key(c),
        ensures
            old(self).heap@[c] == Body::<T, F>::Collector(*collector),
            collector_rep(old(self).heap@, *collector, old(self)@.collectors[c]),
            final(self).heap.wf(),
            final(self).heap@ == old(self).heap@.insert(c, Body::Collector(*final(collector))),
            final(self).model == old(self).model,
            old(self).same_but_heap(*final(self)),
    {
        match self.heap.get_mut(c) {
            Body::Collector(collector) => collector,
            _ => vstd::pervasive::unreached(),
        }
    }
}

/// The links and the types of everything in memory are the same.
pub open spec fn same_links<T, F>(
    heap: Map<usize, Body<T, F>>,
    post: Map<usize, Body<T, F>>,
) -> bool {
    forall|a: usize| #[trigger]
        heap.contains_key(a) ==> {
            &&& post.contains_key(a)
            &&& post[a].vtable_word() == heap[a].vtable_word()
            &&& post[a].link().target() == heap[a].link().target()
        }
}

/// A list stays linked as long as its items keep their links and types.
pub proof fn lemma_linked_frame<T, F>(
    heap: Map<usize, Body<T, F>>,
    post: Map<usize, Body<T, F>>,
    list: Seq<usize>,
)
    requires
        linked(heap, list),
        forall|x: usize| #[trigger]
            list.contains(x) ==> {
                &&& post.contains_key(x)
                &&& post[x].vtable_word() == heap[x].vtable_word()
                &&& post[x].link().target() == heap[x].link().target()
            },
    ensures
        linked(post, list),
        head_ptr(post, list) == head_ptr(heap, list),
{
    reveal(linked);
    assert forall|i: int| 0 <= i < list.len() implies {
        &&& post.contains_key(#[trigger] list[i])
        &&& post[list[i]].link().target() == head_ptr(post, list.skip(i + 1))
    } by {
        assert(list.contains(list[i]));
        if i + 1 < list.len() {
            assert(list.skip(i + 1)[0] == list[i + 1]);
            assert(list.contains(list[i + 1]));
        }
    }
    if list.len() > 0 {
        assert(list.contains(list[0]));
    }
}

/// A collector stays as it is as long as what it keeps has the same links and types.
pub proof fn lemma_collector_frame<T, F>(
    heap: Map<usize, Body<T, F>>,
    post: Map<usize, Body<T, F>>,
    collector: Collector,
    model: CollectorModel,
)
    requires
        collector_rep(heap, collector, model),
        forall|x: usize| #[trigger]
            model.holds(x) ==> {
                &&& post.contains_key(x)
                &&& post[x].vtable_word() == heap[x].vtable_word()
                &&& post[x].link().target() == heap[x].link().target()
            },
    ensures
        collector_rep(post, collector, model),
{
    assert forall|x: usize| #[trigger] model.previous.contains(x) implies model.holds(x) by {}
    assert forall|x: usize| #[trigger] model.current.contains(x) implies model.holds(x) by {}
    assert forall|x: usize| #[trigger] model.next.contains(x) implies model.holds(x) by {}
    assert forall|x: usize| #[trigger] model.garbage.contains(x) implies model.holds(x) by {}
    lemma_linked_frame(heap, post, model.previous);
    lemma_linked_frame(heap, post, model.current);
    lemma_linked_frame(heap, post, model.next);
    lemma_linked_frame(heap, post, model.garbage);
}

impl<T, F> Domain<T, F> {
    /// The chain stays as it is as long as its collectors keep their links.
    pub proof fn lemma_chain_frame(self, post: Self)
        requires
            self.chain_rep(),
            post@.chain == self@.chain,
            forall|c: usize| #[trigger]
                self@.registered(c) ==> (self.heap@[c] matches Body::Collector(collector)
                    ==> post.heap@[c] matches Body::Collector(other) && other.next_link
                    == collector.next_link),
        ensures
            post.chain_rep(),
    {
        reveal(Domain::chain_rep);
        assert forall|i: int| 0 <= i < post@.chain.len() implies (
        post.heap@[#[trigger] post@.chain[i]] matches Body::Collector(collector)
            && collector.next_link == model::first_of(post@.chain.skip(i + 1))) by {
            assert(self@.chain[i] == post@.chain[i]);
            assert(self@.registered(self@.chain[i]));
        }
    }

    /// One collector is replaced by another with the same links.
    pub proof fn lemma_rep_collector(
        self,
        post: Self,
        c: usize,
        collector: Collector,
        model: CollectorModel,
    )
        requires
            self.rep(),
            self@.structure(),
            self@.collectors.contains_key(c),
            post.heap.wf(),
            post.heap@ == self.heap@.insert(c, Body::Collector(collector)),
            self.heap@[c] matches Body::Collector(before) && before.link == collector.link
                && before.next_link == collector.next_link,
            collector_rep(self.heap@, collector, model),
            post@.collectors == self@.collectors.insert(c, model),
            post@.instances == self@.instances,
            post@.chain == self@.chain,
            post@.epoch == self@.epoch,
            post@.tag == self@.tag,
            post@.locals == self@.locals,
            post@.dropped == self@.dropped,
            post.root == self.root,
            post.locals@ == self.locals@,
            post.dropped@ == self.dropped@,
        ensures
            post.rep(),
    {
        assert(same_links(self.heap@, post.heap@));
        assert forall|a: usize| #[trigger] post.heap@.contains_key(a) == post@.occupied(a) by {
            assert(self.heap@.contains_key(a) == self@.occupied(a));
        }
        assert forall|d: usize| #[trigger] post@.collectors.contains_key(d) implies {
            &&& post.heap@.contains_key(d)
            &&& post.heap@[d] matches Body::Collector(other) && collector_rep(
                post.heap@,
                other,
                post@.collectors[d],
            )
        } by {
            if d != c {
                assert(self@.collectors.contains_key(d));
                let other = self.heap@[d]->Collector_0;
                lemma_collector_frame_linked(self.heap@, post.heap@, other, self@.collectors[d]);
            } else {
                lemma_collector_frame_linked(self.heap@, post.heap@, collector, model);
            }
        }
        self.lemma_chain_frame(post);
        assert forall|x: usize| #[trigger] post@.instances.contains_key(x) implies x != c by {
            assert(self@.occupied(x));
        }
    }
}

/// A collector stays as it is as long as everything in memory has the same links and types.
proof fn lemma_collector_frame_linked<T, F>(
    heap: Map<usize, Body<T, F>>,
    post: Map<usize, Body<T, F>>,
    collector: Collector,
    model: CollectorModel,
)
    requires
        collector_rep(heap, collector, model),
        same_links(heap, post),
    ensures
        collector_rep(post, collector, model),
{
    reveal(linked);
    assert forall|x: usize| #[trigger] model.holds(x) implies heap.contains_key(x) by {
        if model.previous.contains(x) {
            let i = model.previous.index_of(x);
            assert(heap.contains_key(model.previous[i]));
        } else if model.current.contains(x) {
            let i = model.current.index_of(x);
            assert(heap.contains_key(model.current[i]));
        } else if model.next.contains(x) {
            let i = model.next.index_of(x);
            assert(heap.contains_key(model.next[i]));
        } else {
            let i = model.garbage.index_of(x);
            assert(heap.contains_key(model.garbage[i]));
        }
    }
    lemma_collector_frame(heap, post, collector, model);
}

impl<T, F> Domain<T, F> {
    /// The first item of a list is taken out of it, and out of memory.
    pub proof fn lemma_rep_discard(self, post: Self, c: usize, bag: Bag, collector: Collector)
        requires
            self.rep(),
            self@.structure(),
            self@.collectors.contains_key(c),
            self@.collectors[c].bag(bag).len() > 0,
            post.heap.wf(),
            ({
                let list = self@.collectors[c].bag(bag);
                let x = list[0];
                &&& post.heap@ == self.heap@.insert(c, Body::Collector(collector)).remove(x)
                &&& self.heap@[c] matches Body::Collector(before) && collector == before.with_link(
                    bag,
                    self.heap@[x].link().target(),
                )
            }),
            post@ == self@.discard(c, bag),
            post.root == self.root,
            post.locals@ == self.locals@,
            post.dropped@ == post@.dropped,
        ensures
            post.rep(),
    {
        let before = self@.collectors[c];
        let list = before.bag(bag);
        let x = list[0];
        before.lemma_shortened(bag);
        assert(before.holds(x));
        assert(self@.keeps(c, x));
        assert(self@.occupied(x));
        assert(x != c);
        assert(!self@.registered(x));
        assert forall|a: usize| #[trigger] post.heap@.contains_key(a) == post@.occupied(a) by {
            assert(self.heap@.contains_key(a) == self@.occupied(a));
        }
        assert forall|d: usize| #[trigger] post@.collectors.contains_key(d) implies {
            &&& post.heap@.contains_key(d)
            &&& post.heap@[d] matches Body::Collector(other) && collector_rep(
                post.heap@,
                other,
                post@.collectors[d],
            )
        } by {
            assert(self@.collectors.contains_key(d));
            let other = self.heap@[d]->Collector_0;
            assert(collector_rep(self.heap@, other, self@.collectors[d]));
            if d != c {
                assert forall|y: usize| #[trigger] self@.collectors[d].holds(y) implies {
                    &&& post.heap@.contains_key(y)
                    &&& post.heap@[y].vtable_word() == self.heap@[y].vtable_word()
                    &&& post.heap@[y].link().target() == self.heap@[y].link().target()
                } by {
                    assert(self@.keeps(d, y));
                    assert(self.heap@.contains_key(y) == self@.occupied(y));
                }
                lemma_collector_frame(self.heap@, post.heap@, other, self@.collectors[d]);
            } else {
                lemma_linked_skip(self.heap@, list);
                assert forall|y: usize| #[trigger] post@.collectors[c].holds(y) implies {
                    &&& post.heap@.contains_key(y)
                    &&& post.heap@[y].vtable_word() == self.heap@[y].vtable_word()
                    &&& post.heap@[y].link().target() == self.heap@[y].link().target()
                } by {
                    assert(before.holds(y));
                    assert(self@.keeps(c, y));
                    assert(self.heap@.contains_key(y) == self@.occupied(y));
                }
                lemma_collector_frame(self.heap@, post.heap@, collector, post@.collectors[c]);
            }
        }
        self.lemma_chain_frame(post);
        assert forall|y: usize| #[trigger] post@.instances.contains_key(y) implies y != c by {
            assert(self@.occupied(y));
        }
    }
}

/// Where the link of an item leads.
pub proof fn lemma_linked_at<T, F>(heap: Map<usize, Body<T, F>>, list: Seq<usize>, i: int)
    requires
        linked(heap, list),
        0 <= i < list.len(),
    ensures
        heap.contains_key(list[i]),
        heap[list[i]].link().target() == if i + 1 < list.len() {
            Some(InstancePtr { data: list[i + 1], vtable: heap[list[i + 1]].vtable_word() })
        } else {
            None
        },
{
    reveal(linked);
    assert(heap[list[i]].link().target() == head_ptr(heap, list.skip(i + 1)));
}

/// A list without its first item is linked, too.
proof fn lemma_linked_skip<T, F>(heap: Map<usize, Body<T, F>>, list: Seq<usize>)
    requires
        linked(heap, list),
        list.len() > 0,
    ensures
        linked(heap, list.skip(1)),
        heap[list[0]].link().target() == head_ptr(heap, list.skip(1)),
{
    reveal(linked);
    assert forall|i: int| 0 <= i < list.skip(1).len() implies {
        &&& heap.contains_key(#[trigger] list.skip(1)[i])
        &&& heap[list.skip(1)[i]].link().target() == head_ptr(heap, list.skip(1).skip(i + 1))
    } by {
        assert(list.skip(1)[i] == list[i + 1]);
        assert(list.skip(1).skip(i + 1) =~= list.skip(i + 2));
    }
    assert(heap.contains_key(list[0]));
}

/// A list with one more item at its head is linked if the item leads to the former head.
proof fn lemma_linked_push<T, F>(
    heap: Map<usize, Body<T, F>>,
    post: Map<usize, Body<T, F>>,
    x: usize,
    list: Seq<usize>,
)
    requires
        linked(heap, list),
        !list.contains(x),
        heap.contains_key(x),
        forall|a: usize| #[trigger] heap.contains_key(a) ==> post.contains_key(a),
        forall|a: usize| #[trigger]
            heap.contains_key(a) ==> post[a].vtable_word() == heap[a].vtable_word(),
        forall|a: usize| #[trigger]
            heap.contains_key(a) && a != x ==> post[a].link().target() == heap[a].link().target(),
        post[x].link().target() == head_ptr(heap, list),
    ensures
        linked(post, seq![x] + list),
        head_ptr(post, seq![x] + list) == Some(
            InstancePtr { data: x, vtable: heap[x].vtable_word() },
        ),
{
    reveal(linked);
    let more = seq![x] + list;
    assert forall|y: usize| #[trigger] list.contains(y) implies heap.contains_key(y) && y != x by {
        let i = list.index_of(y);
        assert(heap.contains_key(list[i]));
    }
    lemma_linked_frame(heap, post, list);
    assert forall|i: int| 0 <= i < more.len() implies {
        &&& post.contains_key(#[trigger] more[i])
        &&& post[more[i]].link().target() == head_ptr(post, more.skip(i + 1))
    } by {
        if i == 0 {
            assert(more.skip(1) =~= list);
        } else {
            assert(more[i] == list[i - 1]);
            assert(more.skip(i + 1) =~= list.skip(i));
        }
    }
}

impl<T, F> Domain<T, F> {
    /// Something that is on no list is put at the head of a list.
    pub proof fn lemma_rep_collect(self, post: Self, c: usize, x: usize, collector: Collector)
        requires
            self.rep(),
            self@.space_ok(),
            self@.bags_ok(),
            self@.collectable(c, x),
            post.heap@ == self.heap@.insert(
                x,
                self.heap@[x].relinked(Link::to(head_ptr(self.heap@, self@.collectors[c].current))),
            ).insert(c, Body::Collector(collector)),
            self.heap@[c] matches Body::Collector(before) && collector == (Collector {
                current_instance_link: Some(
                    InstancePtr { data: x, vtable: self.heap@[x].vtable_word() },
                ),
                next_epoch_update: self@.collectors[c].collected(x).next_epoch_update,
                has_garbage: true,
                ..before
            }),
            forall|d: usize| #[trigger]
                post@.collectors.contains_key(d) == self@.collectors.contains_key(d),
            forall|d: usize|
                #![trigger post@.collectors[d]]
                self@.collectors.contains_key(d) && d != c && d != x ==> post@.collectors[d]
                    == self@.collectors[d],
            post@.collectors[c] == self@.collectors[c].collected(x),
            self@.collectors.contains_key(x) ==> post@.collectors[x] == (CollectorModel {
                retirement: post@.collectors[x].retirement,
                ..self@.collectors[x]
            }),
            forall|y: usize| #[trigger]
                post@.instances.contains_key(y) == self@.instances.contains_key(y),
            forall|y: usize|
                #![trigger post@.instances[y]]
                self@.instances.contains_key(y) && y != x ==> post@.instances[y]
                    == self@.instances[y],
            self@.instances.contains_key(x) ==> post@.instances[x].retirement is Some
                && post@.instances[x].body == self@.instances[x].body,
        ensures
            post.collectors_rep(),
            post.instances_rep(),
            forall|a: usize| #[trigger] post.heap@.contains_key(a) == post@.occupied(a),
    {
        let heap = self.heap@;
        let before = self@.collectors[c];
        assert(self@.occupied(c));
        assert(heap.contains_key(c) && heap.contains_key(x));
        assert(!before.holds(x)) by {
            if before.holds(x) {
                assert(self@.keeps(c, x));
            }
        }
        let head = head_ptr(heap, before.current);
        assert(Link::to(head).target() == head) by {
            if before.current.len() > 0 {
                assert(before.holds(before.current[0])) by {
                    assert(before.current.contains(before.current[0]));
                }
                assert(self@.keeps(c, before.current[0]));
                assert(self@.occupied(before.current[0]));
            }
        }
        assert forall|a: usize| #[trigger] post.heap@.contains_key(a) == post@.occupied(a) by {
            assert(heap.contains_key(a) == self@.occupied(a));
        }
        assert forall|a: usize| #[trigger] heap.contains_key(a) implies post.heap@.contains_key(a)
            && post.heap@[a].vtable_word() == heap[a].vtable_word() && (a != x
            ==> post.heap@[a].link().target() == heap[a].link().target()) by {}
        assert forall|d: usize| #[trigger] post@.collectors.contains_key(d) implies {
            &&& post.heap@.contains_key(d)
            &&& post.heap@[d] matches Body::Collector(other) && collector_rep(
                post.heap@,
                other,
                post@.collectors[d],
            )
        } by {
            assert(self@.collectors.contains_key(d));
            let other = heap[d]->Collector_0;
            assert(collector_rep(heap, other, self@.collectors[d]));
            assert forall|y: usize| #[trigger] self@.collectors[d].holds(y) implies {
                &&& post.heap@.contains_key(y)
                &&& post.heap@[y].vtable_word() == heap[y].vtable_word()
                &&& post.heap@[y].link().target() == heap[y].link().target()
            } by {
                assert(self@.keeps(d, y));
                assert(heap.contains_key(y) == self@.occupied(y));
            }
            lemma_collector_frame(heap, post.heap@, other, self@.collectors[d]);
            if d == c {
                lemma_linked_push(heap, post.heap@, x, before.current);
            }
        }
        assert forall|y: usize| #[trigger] post@.instances.contains_key(y) implies {
            &&& post.heap@.contains_key(y)
            &&& instance_rep(post.heap@[y], post@.instances[y])
        } by {
            assert(self@.occupied(y));
            assert(self@.instances.contains_key(y));
            assert(instance_rep(heap[y], self@.instances[y]));
        }
    }
}

impl<T, F> Domain<T, F> {
    /// The links between the collectors of the chain lead to the end of any part of it.
    pub proof fn lemma_next_link(self, rest: Seq<usize>)
        requires
            self.rep(),
            self@.space_ok(),
            self@.chain_ok(),
            rest.is_suffix_of(self@.chain),
            rest.len() > 0,
        ensures
            rest[0] != 0,
            self@.registered(rest[0]),
            self@.collectors.contains_key(rest[0]),
            self.heap@[rest[0]] matches Body::Collector(collector) && collector.next_link
                == model::first_of(rest.skip(1)),
    {
        reveal(Domain::chain_rep);
        let i = self@.chain.len() - rest.len();
        assert(self@.chain[i] == rest[0]);
        assert(self@.registered(rest[0]));
        assert(self@.occupied(rest[0]));
        assert(self@.chain.skip(i + 1) =~= rest.skip(1));
    }

    /// The links between the collectors that are left in the chain when one is taken out of it.
    #[verifier::spinoff_prover]
    proof fn lemma_chain_unlinked(self, post: Self, k: int)
        requires
            self.chain_rep(),
            self@.chain.no_duplicates(),
            0 <= k < self@.chain.len(),
            post@.chain == self@.chain.take(k) + self@.chain.skip(k + 1),
            k == 0 ==> post.heap@ == self.heap@,
            k > 0 ==> (self.heap@[self@.chain[k - 1]] matches Body::Collector(before)
                && post.heap@ == self.heap@.insert(
                self@.chain[k - 1],
                Body::Collector(
                    Collector { next_link: model::first_of(self@.chain.skip(k + 1)), ..before },
                ),
            )),
        ensures
            post.chain_rep(),
    {
        reveal(Domain::chain_rep);
        let chain = self@.chain;
        let p = chain[k - 1];
        assert forall|i: int| 0 <= i < post@.chain.len() implies (
        post.heap@[#[trigger] post@.chain[i]] matches Body::Collector(collector)
            && collector.next_link == model::first_of(post@.chain.skip(i + 1))) by {
            if i < k {
                assert(post@.chain[i] == chain[i]);
                if i + 1 < k {
                    assert(chain[i] != p);
                    assert(post@.chain.skip(i + 1)[0] == chain[i + 1]);
                    assert(chain.skip(i + 1)[0] == chain[i + 1]);
                } else {
                    assert(post@.chain.skip(i + 1) =~= chain.skip(k + 1));
                }
            } else {
                assert(post@.chain[i] == chain[i + 1]);
                if k > 0 {
                    assert(chain[i + 1] != p);
                }
                assert(post@.chain.skip(i + 1) =~= chain.skip(i + 2));
            }
        }
    }

    /// A collector is taken out of the chain.
    pub proof fn lemma_rep_unlink(self, post: Self, k: int)
        requires
            self.rep(),
            self@.space_ok(),
            self@.chain_ok(),
            self@.bags_ok(),
            0 <= k < self@.chain.len(),
            post.heap.wf(),
            post@.collectors == self@.collectors,
            post@.instances == self@.instances,
            post@.chain == self@.chain.take(k) + self@.chain.skip(k + 1),
            post@.epoch == self@.epoch,
            post@.tag == self@.tag,
            post@.locals == self@.locals,
            post@.dropped == self@.dropped,
            post.root.epoch == self.root.epoch,
            post.locals@ == self.locals@,
            post.dropped@ == self.dropped@,
            k == 0 ==> post.heap@ == self.heap@ && post.root.chain_head == model::first_of(
                self@.chain.skip(1),
            ) + self@.tag@,
            k > 0 ==> post.root == self.root && (self.heap@[self@.chain[k - 1]] matches Body::Collector(
                before,
            ) && post.heap@ == self.heap@.insert(
                self@.chain[k - 1],
                Body::Collector(Collector { next_link: model::first_of(self@.chain.skip(k + 1)), ..before }),
            )),
        ensures
            post.rep(),
    {
        let chain = self@.chain;
        let p = chain[k - 1];
        if k > 0 {
            assert(self@.registered(p));
            assert(self@.occupied(p));
        }
        assert(same_links(self.heap@, post.heap@));
        assert forall|a: usize| #[trigger] post.heap@.contains_key(a) == post@.occupied(a) by {
            assert(self.heap@.contains_key(a) == self@.occupied(a));
        }
        assert forall|d: usize| #[trigger] post@.collectors.contains_key(d) implies {
            &&& post.heap@.contains_key(d)
            &&& post.heap@[d] matches Body::Collector(other) && collector_rep(
                post.heap@,
                other,
                post@.collectors[d],
            )
        } by {
            assert(self@.collectors.contains_key(d));
            let other = self.heap@[d]->Collector_0;
            lemma_collector_frame_linked(self.heap@, post.heap@, other, self@.collectors[d]);
        }
        self.lemma_chain_unlinked(post, k);
        assert forall|x: usize| #[trigger] post@.instances.contains_key(x) implies post.heap@[x]
            == self.heap@[x] by {
            assert(self@.occupied(x));
        }
        if k == 0 {
            assert(post@.chain =~= chain.skip(1));
        } else {
            assert(post@.chain[0] == chain[0]);
        }
    }
}

impl<T, F> Domain<T, F> {
    /// Something comes into being at an address that was vacant.
    pub proof fn lemma_placed(self, post: Self, a: usize, body: Body<T, F>)
        requires
            self.rep(),
            !self.heap@.contains_key(a),
            post.heap@ == self.heap@.insert(a, body),
        ensures
            forall|c: usize| #[trigger]
                self@.collectors.contains_key(c) ==> {
                    &&& c != a
                    &&& post.heap@.contains_key(c)
                    &&& post.heap@[c] matches Body::Collector(collector) && collector_rep(
                        post.heap@,
                        collector,
                        self@.collectors[c],
                    )
                },
            forall|x: usize| #[trigger]
                self@.instances.contains_key(x) ==> {
                    &&& x != a
                    &&& post.heap@.contains_key(x)
                    &&& instance_rep(post.heap@[x], self@.instances[x])
                },
            !self@.occupied(a),
    {
        assert(same_links(self.heap@, post.heap@));
        assert(self.heap@.contains_key(a) == self@.occupied(a));
        assert forall|c: usize| #[trigger] self@.collectors.contains_key(c) implies {
            &&& c != a
            &&& post.heap@.contains_key(c)
            &&& post.heap@[c] matches Body::Collector(collector) && collector_rep(
                post.heap@,
                collector,
                self@.collectors[c],
            )
        } by {
            let collector = self.heap@[c]->Collector_0;
            lemma_collector_frame_linked(
                self.heap@,
                post.heap@,
                collector,
                self@.collectors[c],
            );
        }
    }

    /// A collector comes into being at the head of the chain.
    pub proof fn lemma_rep_enlist(self, post: Self, c: usize, collector: Collector)
        requires
            self.rep(),
            self@.space_ok(),
            self@.chain_ok(),
            !self.heap@.contains_key(c),
            post.heap.wf(),
            post.heap@ == self.heap@.insert(c, Body::Collector(collector)),
            collector == (Collector { next_link: model::first_of(self@.chain), ..Collector::fresh() }),
            post@ == self@.enlist(c),
            post.root.epoch == self.root.epoch,
            post.root.chain_head == c + self@.tag@,
            post.locals@ == self.locals@,
            post.dropped@ == self.dropped@,
        ensures
            post.rep(),
    {
        self.lemma_placed(post, c, Body::Collector(collector));
        assert forall|a: usize| #[trigger] post.heap@.contains_key(a) == post@.occupied(a) by {
            assert(self.heap@.contains_key(a) == self@.occupied(a));
        }
        assert(collector_rep(post.heap@, collector, post@.collectors[c])) by {
            reveal(linked);
        }
        assert forall|d: usize| #[trigger] post@.collectors.contains_key(d) implies {
            &&& post.heap@.contains_key(d)
            &&& post.heap@[d] matches Body::Collector(other) && collector_rep(
                post.heap@,
                other,
                post@.collectors[d],
            )
        } by {
            if d != c {
                assert(self@.collectors.contains_key(d));
            }
        }
        assert(post.chain_rep()) by {
            reveal(Domain::chain_rep);
            assert forall|i: int| 0 <= i < post@.chain.len() implies (
            post.heap@[#[trigger] post@.chain[i]] matches Body::Collector(k) && k.next_link
                == model::first_of(post@.chain.skip(i + 1))) by {
                assert(post@.chain.skip(i + 1) =~= self@.chain.skip(i));
                if i > 0 {
                    assert(post@.chain[i] == self@.chain[i - 1]);
                    assert(self@.registered(self@.chain[i - 1]));
                } else {
                    assert(self@.chain.skip(0) =~= self@.chain);
                }
            }
        }
    }
}

impl<T, F> Domain<T, F> {
    /// The first item of the garbage is moved to the list of recently retired instances.
    pub proof fn lemma_rep_recollect(self, post: Self, c: usize, collector: Collector)
        requires
            self.rep(),
            self@.structure(),
            self@.collectors.contains_key(c),
            self@.collectors[c].garbage.len() > 0,
            post.heap.wf(),
            ({
                let x = self@.collectors[c].garbage[0];
                &&& post.heap@ == self.heap@.insert(
                    x,
                    self.heap@[x].relinked(
                        Link::to(head_ptr(self.heap@, self@.collectors[c].current)),
                    ),
                ).insert(c, Body::Collector(collector))
                &&& self.heap@[c] matches Body::Collector(before) && collector == (Collector {
                    current_instance_link: Some(
                        InstancePtr { data: x, vtable: self.heap@[x].vtable_word() },
                    ),
                    garbage_link: self.heap@[x].link().target(),
                    next_epoch_update: model::hastened(before.next_epoch_update),
                    has_garbage: true,
                    ..before
                })
            }),
            post@ == self@.recollect(c),
            post.root == self.root,
            post.locals@ == self.locals@,
            post.dropped@ == self.dropped@,
        ensures
            post.rep(),
    {
        let heap = self.heap@;
        let before = self@.collectors[c];
        let x = before.garbage[0];
        before.lemma_shortened(Bag::Garbage);
        assert(before.garbage.contains(x));
        assert(before.holds(x));
        assert(self@.keeps(c, x));
        assert(self@.occupied(x) && self@.occupied(c));
        assert(heap.contains_key(x) && heap.contains_key(c));
        assert(x != c);
        let head = head_ptr(heap, before.current);
        assert(Link::to(head).target() == head) by {
            if before.current.len() > 0 {
                assert(before.current.contains(before.current[0]));
                assert(before.holds(before.current[0]));
                assert(self@.keeps(c, before.current[0]));
                assert(self@.occupied(before.current[0]));
            }
        }
        assert forall|a: usize| #[trigger] post.heap@.contains_key(a) == post@.occupied(a) by {
            assert(heap.contains_key(a) == self@.occupied(a));
        }
        assert forall|a: usize| #[trigger] heap.contains_key(a) implies post.heap@.contains_key(a)
            && post.heap@[a].vtable_word() == heap[a].vtable_word() && (a != x
            ==> post.heap@[a].link().target() == heap[a].link().target()) by {}
        assert forall|d: usize| #[trigger] post@.collectors.contains_key(d) implies {
            &&& post.heap@.contains_key(d)
            &&& post.heap@[d] matches Body::Collector(other) && collector_rep(
                post.heap@,
                other,
                post@.collectors[d],
            )
        } by {
            assert(self@.collectors.contains_key(d));
            let other = heap[d]->Collector_0;
            assert(collector_rep(heap, other, self@.collectors[d]));
            if d != c {
                assert forall|y: usize| #[trigger] self@.collectors[d].holds(y) implies {
                    &&& post.heap@.contains_key(y)
                    &&& post.heap@[y].vtable_word() == heap[y].vtable_word()
                    &&& post.heap@[y].link().target() == heap[y].link().target()
                } by {
                    assert(self@.keeps(d, y));
                    assert(heap.contains_key(y) == self@.occupied(y));
                }
                lemma_collector_frame(heap, post.heap@, other, self@.collectors[d]);
            } else {
                lemma_linked_skip(heap, before.garbage);
                let shortened = CollectorModel { garbage: before.garbage.skip(1), ..before };
                let without = Collector { garbage_link: heap[x].link().target(), ..other };
                assert forall|y: usize| #[trigger] shortened.holds(y) implies {
                    &&& post.heap@.contains_key(y)
                    &&& post.heap@[y].vtable_word() == heap[y].vtable_word()
                    &&& post.heap@[y].link().target() == heap[y].link().target()
                } by {
                    assert(before.holds(y));
                    assert(self@.keeps(c, y));
                    assert(heap.contains_key(y) == self@.occupied(y));
                }
                lemma_collector_frame(heap, post.heap@, without, shortened);
                lemma_linked_push(heap, post.heap@, x, before.current);
            }
        }
        assert forall|d: usize| #[trigger] self@.registered(d) implies (
        heap[d] matches Body::Collector(k) ==> post.heap@[d] matches Body::Collector(other)
            && other.next_link == k.next_link) by {}
        self.lemma_chain_frame(post);
        assert forall|y: usize| #[trigger] post@.instances.contains_key(y) implies {
            &&& post.heap@.contains_key(y)
            &&& instance_rep(post.heap@[y], post@.instances[y])
        } by {
            assert(self@.occupied(y));
            assert(self@.instances.contains_key(y));
            assert(instance_rep(heap[y], self@.instances[y]));
        }
    }
}

} // verus!

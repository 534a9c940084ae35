//! What instances and handles are, and what is in memory.

use crate::atomic::AtomicOwned;
use crate::atomic::AtomicShared;
use crate::behaviour;
use crate::collectible::InstancePtr;
use crate::collectible::Link;
use crate::collector::Collector;
use crate::domain::Domain;
use crate::domain;
use crate::Epoch;
use crate::epoch;
use crate::heap::Body;
use crate::model::{InstanceModel, Model, Payload};
use crate::owned::Owned;
use crate::shared::Shared;
use crate::Tag;
use crate::tag;
use vstd::prelude::*;

verus! {

// Instances.

/// An instance that comes into being has the value given and one strong reference; adding and dropping
/// a strong reference does nothing else. What is deferred comes into being retired.
pub proof fn law_instances<T, F>(
    model: Model<T, F>,
    x: usize,
    value: T,
    shared: bool,
    token: nat,
    c: usize,
    payload: Payload<T, F>,
)
    ensures
        ({
            let post = model.create(x, value, shared);
            &&& post.instances == model.instances.insert(
                x,
                InstanceModel {
                    body: Payload::Instance(value),
                    shared,
                    refs: Set::<nat>::empty().insert(model.tokens),
                    retirement: None,
                },
            )
            &&& post.collectors == model.collectors
            &&& behaviour::same_words(model, post)
            &&& post.dropped == model.dropped
            &&& post.tokens == model.tokens + 1
        }),
        model.instances.contains_key(x) ==> ({
            let post = model.share(x);
            &&& post.instances[x].refs == model.instances[x].refs.insert(model.tokens)
            &&& post.instances == model.instances.insert(
                x,
                InstanceModel { refs: post.instances[x].refs, ..model.instances[x] },
            )
            &&& post.collectors == model.collectors
            &&& behaviour::same_words(model, post)
            &&& post.dropped == model.dropped
            &&& post.tokens == model.tokens + 1
        }),
        model.instances.contains_key(x) ==> ({
            let post = model.unshare(x, token);
            &&& post.instances[x].refs == model.instances[x].refs.remove(token)
            &&& post.instances == model.instances.insert(
                x,
                InstanceModel { refs: post.instances[x].refs, ..model.instances[x] },
            )
            &&& post.collectors == model.collectors
            &&& behaviour::same_words(model, post)
            &&& post.dropped == model.dropped
            &&& post.tokens == model.tokens
        }),
        ({
            let post = model.put(x, payload);
            &&& post.instances == model.instances.insert(
                x,
                InstanceModel {
                    body: payload,
                    shared: false,
                    refs: Set::<nat>::empty(),
                    retirement: None,
                },
            )
            &&& post.collectors == model.collectors
            &&& behaviour::same_words(model, post)
            &&& post.dropped == model.dropped
            &&& post.tokens == model.tokens
        }),
        !model.occupied(x) ==> ({
            let post = model.defer(c, x, payload);
            &&& post.instances.contains_key(x)
            &&& post.instances[x].body == payload
            &&& post.instances[x].refs == Set::<nat>::empty()
            &&& !post.instances[x].shared
            &&& post.instances[x].retirement is Some
            &&& post.instances[x].retirement->0.holder == c
            &&& post.collectors[c].current == seq![x] + model.collectors[c].current
            &&& post.collectors[c].has_garbage
            &&& post.collectors[c].next_epoch_update <= model.collectors[c].next_epoch_update
            &&& forall|y: usize|
                y != x ==> {
                    &&& #[trigger] post.instances.contains_key(y)
                        == model.instances.contains_key(y)
                    &&& post.instances[y] == model.instances[y]
                }
            &&& behaviour::same_words(model, post)
            &&& post.dropped == model.dropped
        }),
{
    assert(model.create(x, value, shared).instances =~= model.instances.insert(
        x,
        InstanceModel {
            body: Payload::Instance(value),
            shared,
            refs: Set::<nat>::empty().insert(model.tokens),
            retirement: None,
        },
    ));
}

/// What is said of an instance: it is alive as long as it has a strong reference and has not been
/// retired.
pub proof fn law_alive<T, F>(model: Model<T, F>, x: usize)
    requires
        model.inv(),
    ensures
        model.live(x) == (model.instances.contains_key(x) && model.instances[x].retirement is None
            && exists|token: nat| model.instances[x].refs.contains(token)),
        model.readable(x) == (model.instances.contains_key(x)
            && model.instances[x].body is Instance),
        model.instances.contains_key(x) && model.instances[x].body == Payload::<T, F>::Instance(
            model.value(x),
        ) || !model.readable(x),
{
    if model.instances.contains_key(x) {
        let refs = model.instances[x].refs;
        vstd::set_lib::lemma_set_empty_equivalency_len(refs);
        if refs.len() > 0 {
            assert(refs.contains(refs.choose()));
        }
    }
}

// Memory.

/// What the words in the memory of a collector are: the word that other threads read consists of the
/// epoch that was announced last, a bit for a thread that does not read, and a bit for a collector
/// that has been given up; each list is led to by a pointer to its first item.
pub proof fn law_memory<T, F>(domain: Domain<T, F>, c: usize)
    requires
        domain.wf(),
        domain@.collectors.contains_key(c),
    ensures
        domain.heap@.contains_key(c),
        domain.heap@[c] is Collector,
        ({
            let collector = domain.heap@[c]->Collector_0;
            let model = domain@.collectors[c];
            &&& collector.state == model.announcement + (if model.inactive {
                4int
            } else {
                0
            }) + (if model.invalid {
                8int
            } else {
                0
            })
            &&& collector.announcement.0 == model.announcement
            &&& collector.next_epoch_update == model.next_epoch_update
            &&& collector.has_garbage == model.has_garbage
            &&& collector.num_readers == model.num_readers
            &&& leads_to(collector.previous_instance_link, model.previous)
            &&& leads_to(collector.current_instance_link, model.current)
            &&& leads_to(collector.next_instance_link, model.next)
            &&& leads_to(collector.garbage_link, model.garbage)
        }),
        domain.root.epoch == domain@.epoch % 4,
        domain.root.chain_head % 4 == domain@.tag@,
        domain@.chain.len() == 0 ==> domain.root.chain_head == domain@.tag@,
        domain@.chain.len() > 0 ==> domain.root.chain_head == domain@.chain[0] + domain@.tag@,
        domain.locals@ == domain@.locals,
        domain.dropped@ == domain@.dropped,
{
    domain@.lemma_head(domain.root.chain_head);
}

/// The pointer leads to the first item of the list; it is null if there is none.
pub open spec fn leads_to(
    link: Option<InstancePtr>,
    list: Seq<usize>,
) -> bool {
    if list.len() == 0 {
        link is None
    } else {
        link is Some && link->0.data == list[0]
    }
}

/// Every item of a list leads to the next one, and the last one to none. So do the collectors of the
/// chain.
pub proof fn law_links<T, F>(domain: Domain<T, F>, c: usize, list: Seq<usize>, i: int)
    requires
        domain.wf(),
        domain@.collectors.contains_key(c),
        list == domain@.collectors[c].previous || list == domain@.collectors[c].current || list
            == domain@.collectors[c].next || list == domain@.collectors[c].garbage,
        0 <= i < list.len(),
    ensures
        domain.heap@.contains_key(list[i]),
        leads_to(link_of(domain.heap@[list[i]]), list.skip(i + 1)),
{
    domain::lemma_linked_at(domain.heap@, list, i);
    reveal(domain::linked);
}

/// The pointer that is embedded in something that has been retired.
pub open spec fn link_of<T, F>(body: Body<T, F>) -> Option<InstancePtr> {
    let link: Link = match body {
        Body::Instance(counted) => counted.next_or_refcnt,
        Body::Closure(closure) => closure.link,
        Body::Collector(collector) => collector.link,
    };
    if link.ref_cnt == 0 {
        None
    } else {
        Some(InstancePtr { data: link.ref_cnt, vtable: link.ptr })
    }
}

/// The collectors of the chain lead from one to the next.
pub proof fn law_chain_links<T, F>(domain: Domain<T, F>, i: int)
    requires
        domain.wf(),
        0 <= i < domain@.chain.len(),
    ensures
        domain.heap@[domain@.chain[i]] is Collector,
        ({
            let collector: Collector = domain.heap@[domain@.chain[i]]->Collector_0;
            if i + 1 < domain@.chain.len() {
                collector.next_link == domain@.chain[i + 1]
            } else {
                collector.next_link == 0
            }
        }),
{
    reveal(Domain::chain_rep);
    assert(domain.heap@[domain@.chain[i]] is Collector);
}

/// What is in the memory of an instance: its value, and for one that is reference-counted a counter
/// that is one less than twice the number of strong references.
pub proof fn law_instance_memory<T, F>(domain: Domain<T, F>, x: usize)
    requires
        domain.wf(),
        domain@.instances.contains_key(x),
    ensures
        domain.heap@.contains_key(x),
        match domain@.instances[x].body {
            Payload::Instance(value) => {
                &&& domain.heap@[x] is Instance
                &&& domain.heap@[x]->Instance_0.instance == value
                &&& domain@.instances[x].retirement is None && domain@.instances[x].shared
                    && domain@.instances[x].refs.len() > 0
                    ==> domain.heap@[x]->Instance_0.next_or_refcnt.ref_cnt == 2
                    * domain@.instances[x].refs.len() - 1
                &&& domain@.instances[x].retirement is None && (!domain@.instances[x].shared
                    || domain@.instances[x].refs.len() == 0)
                    ==> domain.heap@[x]->Instance_0.next_or_refcnt.ref_cnt == 0
            },
            Payload::Closure(closure) => {
                &&& domain.heap@[x] is Closure
                &&& domain.heap@[x]->Closure_0.f == closure.f
            },
        },
{
    assert(domain::instance_rep(domain.heap@[x], domain@.instances[x]));
}

/// There is memory left as long as an address that has been used is vacant, or a further one can be
/// represented.
pub proof fn law_room<T, F>(domain: Domain<T, F>)
    ensures
        domain.room() == (domain.heap.vacant@.len() > 0 || 4 * (domain.heap.slots@.len() + 2)
            <= usize::MAX),
{
}

// Values.

/// Epochs are known by the remainder of their number modulo four.
pub proof fn law_epoch_values(count: nat, initial: Epoch, changes: nat)
    ensures
        epoch::epoch_word(count) == count % 4,
        initial.later(changes) == (initial.0 + changes) % 4,
        initial@ == initial.0,
{
}

/// A pointer consists of an address and a tag, which is the remainder of the pointer modulo four.
pub proof fn law_tag_values(ptr: usize, mark: Tag, bits: nat)
    ensures
        Tag::Neither@ == 0,
        Tag::First@ == 1,
        Tag::Second@ == 2,
        Tag::Both@ == 3,
        tag::untagged(ptr) == ptr - ptr % 4,
        tag::retagged(ptr, mark) == ptr - ptr % 4 + mark@,
        tag::tag_of(bits)@ == bits % 4,
{
    assert(ptr - ptr % 4 + 3 <= usize::MAX);
}

// Handles.

/// What is stored in an [`AtomicOwned`], and what comes out of it: the address of the instance with the
/// tag given, and the address without its tag; it is null if there is no instance.
pub proof fn law_owned_words<T>(atomic: AtomicOwned<T>, owned: Option<Owned<T>>, mark: Tag)
    ensures
        atomic.target() == atomic.word - atomic.word % 4,
        atomic.holds(owned, mark) == match owned {
            Some(owned) => atomic.word == owned.instance_ptr - owned.instance_ptr % 4 + mark@
                && atomic.token == owned.token,
            None => atomic.word == mark@,
        },
        atomic.yields(owned) == match owned {
            Some(owned) => atomic.word >= 4 && owned.instance_ptr == atomic.word - atomic.word % 4
                && owned.token == atomic.token,
            None => atomic.word < 4,
        },
{
}

/// The same of an [`AtomicShared`].
pub proof fn law_shared_words<T>(atomic: AtomicShared<T>, shared: Option<Shared<T>>, mark: Tag)
    ensures
        atomic.target() == atomic.word - atomic.word % 4,
        atomic.holds(shared, mark) == match shared {
            Some(shared) => atomic.word == shared.instance_ptr - shared.instance_ptr % 4 + mark@
                && atomic.token == shared.token,
            None => atomic.word == mark@,
        },
        atomic.yields(shared) == match shared {
            Some(shared) => atomic.word >= 4 && shared.instance_ptr == atomic.word - atomic.word
                % 4 && shared.token == atomic.token,
            None => atomic.word < 4,
        },
{
}

/// A strong reference is the last one if and only if there is no other.
pub proof fn law_last_reference<T, F>(
    model: Model<T, F>,
    shared: Shared<T>,
    atomic: AtomicShared<T>,
)
    requires
        model.inv(),
    ensures
        shared.valid(model) == (model.instances.contains_key(shared.instance_ptr)
            && model.instances[shared.instance_ptr].refs.contains(shared.token@)
            && model.instances[shared.instance_ptr].shared),
        shared.valid(model) ==> shared.last(model) == (forall|token: nat| #[trigger]
            model.instances[shared.instance_ptr].refs.contains(token) ==> token == shared.token@),
        atomic.valid(model) && atomic.word >= 4 ==> atomic.last(model) == (forall|token: nat|
         #[trigger]
            model.instances[atomic.target()].refs.contains(token) ==> token == atomic.token@),
{
    if shared.valid(model) {
        lemma_only_one(model.instances[shared.instance_ptr].refs, shared.token@);
    }
    if atomic.valid(model) && atomic.word >= 4 {
        lemma_only_one(model.instances[atomic.target()].refs, atomic.token@);
    }
}

/// A set has one element if and only if there is no other.
proof fn lemma_only_one(set: Set<nat>, element: nat)
    requires
        set.finite(),
        set.contains(element),
    ensures
        (set.len() == 1) == (forall|other: nat| #[trigger] set.contains(other) ==> other == element),
{
    let rest = set.remove(element);
    vstd::set_lib::lemma_set_empty_equivalency_len(rest);
    if set.len() == 1 {
        assert forall|other: nat| #[trigger] set.contains(other) implies other == element by {
            if other != element {
                assert(rest.contains(other));
            }
        }
    }
    if forall|other: nat| #[trigger] set.contains(other) ==> other == element {
        assert(rest =~= Set::empty());
    }
}

} // verus!

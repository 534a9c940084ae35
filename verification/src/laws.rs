//! What the library promises as a whole.

use crate::atomic::{AtomicOwned, AtomicShared};
use crate::collectible::{Collectible, InstancePtr, Link};
use crate::domain;
use crate::domain::Domain;
use crate::epoch;
use crate::model::{Bag, Model, Payload};
use crate::owned::Owned;
use crate::ptr::Ptr;
use crate::shared::Shared;
use crate::tag;
use crate::{Epoch, Guard, Tag};
use vstd::prelude::*;

verus! {

/// Three times the next epoch is the next generation.
pub proof fn law_next_generation(initial: Epoch, next: Epoch, next_next: Epoch, last: Epoch)
    requires
        next@ == initial.later(1),
        next_next@ == next.later(1),
        last@ == next_next.later(1),
    ensures
        last@ == initial.later(3),
{
}

/// The previous epoch of the next one is the initial one, and so is the next epoch of the previous
/// one.
pub proof fn law_prev_undoes_next(initial: Epoch, next: Epoch, prev: Epoch)
    requires
        initial@ < 4,
        next@ == initial.later(1),
        prev@ == initial.later(3),
    ensures
        next.later(3) == initial@,
        prev.later(1) == initial@,
{
}

/// The values by which epochs are known follow each other as those of [`Epoch`] do.
pub proof fn law_epoch_rotates(count: nat, changes: nat)
    ensures
        epoch::epoch_word(count + changes) == Epoch(epoch::epoch_word(count)).later(changes),
{
}

/// A tag that is set on a pointer is the one that is read from it, and leaves the address as it
/// is; setting another one overwrites it.
#[verifier::spinoff_prover]
pub proof fn law_tag_overwrites(ptr: usize, first: Tag, second: Tag)
    ensures
        tag::retagged(ptr, first) % 4 == first@,
        tag::untagged(tag::retagged(ptr, first)) == tag::untagged(ptr),
        tag::retagged(tag::retagged(ptr, first), second) == tag::retagged(ptr, second),
        tag::untagged(ptr) % 4 == 0,
{
    let base = tag::untagged(ptr);
    assert(base % 4 == 0 && base <= usize::MAX - 3);
    assert(tag::retagged(ptr, first) == base + first@);
    assert((base + first@) % 4 == first@);
}

/// The pointer that is stored in a link is the one that is read from it.
pub proof fn law_link_round_trip(next_ptr: Option<InstancePtr>)
    requires
        next_ptr matches Some(ptr) ==> ptr.data != 0,
    ensures
        Link::to(next_ptr).target() == next_ptr,
{
}

/// Every state is valid, and the steps between them keep what threads protect.
pub open spec fn history<T, F>(states: Seq<Model<T, F>>) -> bool {
    &&& forall|i: int| 0 <= i < states.len() ==> (#[trigger] states[i]).inv()
    &&& forall|i: int, j: int|
        0 <= i && j == i + 1 && j < states.len() ==> (#[trigger] states[i]).spares(
            #[trigger] states[j],
        )
}

/// Whatever happens, in whatever order threads take their steps: an instance that a thread can
/// read stays in place, with the same value, for as long as the thread has been reading without
/// interruption.
pub proof fn law_protected_throughout<T, F>(
    states: Seq<Model<T, F>>,
    c: usize,
    x: usize,
    i: int,
    j: int,
)
    requires
        history(states),
        0 <= i <= j < states.len(),
        states[i].protects(c, x),
        forall|k: int|
            i <= k <= j ==> {
                &&& (#[trigger] states[k]).pinned(c)
                &&& states[k].collectors[c].session == states[i].collectors[c].session
            },
    ensures
        states[j].protects(c, x),
        states[j].instances[x].body == states[i].instances[x].body,
    decreases j - i,
{
    if i < j {
        law_protected_throughout(states, c, x, i, j - 1);
        assert(states[j - 1].spares(states[j]));
        assert(states[j - 1].same_session(states[j], c));
    }
}

/// Every state is valid, and the steps between them keep what threads protect of what had been
/// retired. All steps do so, those of a terminating thread among them, whatever it retires.
pub open spec fn wider_history<T, F>(states: Seq<Model<T, F>>) -> bool {
    &&& forall|i: int| 0 <= i < states.len() ==> (#[trigger] states[i]).inv()
    &&& forall|i: int, j: int|
        0 <= i && j == i + 1 && j < states.len() ==> (#[trigger] states[i]).spares_retired(
            #[trigger] states[j],
        )
}

/// Steps that keep what threads protect keep what they protect of what had been retired.
pub proof fn law_wider_history<T, F>(states: Seq<Model<T, F>>)
    requires
        history(states),
    ensures
        wider_history(states),
{
    assert forall|i: int, j: int| 0 <= i && j == i + 1 && j < states.len() implies (
    #[trigger] states[i]).spares_retired(#[trigger] states[j]) by {
        assert(states[i].spares(states[j]));
    }
}

/// Whatever happens, also while threads terminate and retire instances in the course of it: a retired
/// instance that a thread can read stays in place, with the same value, for as long as the thread has
/// been reading without interruption.
pub proof fn law_retired_protected_throughout<T, F>(
    states: Seq<Model<T, F>>,
    c: usize,
    x: usize,
    i: int,
    j: int,
)
    requires
        wider_history(states),
        0 <= i <= j < states.len(),
        states[i].protects(c, x),
        states[i].instances[x].retirement is Some,
        forall|k: int|
            i <= k <= j ==> {
                &&& (#[trigger] states[k]).pinned(c)
                &&& states[k].collectors[c].session == states[i].collectors[c].session
            },
    ensures
        states[j].protects(c, x),
        states[j].instances[x].body == states[i].instances[x].body,
        states[j].instances[x].retirement == states[i].instances[x].retirement,
    decreases j - i,
{
    if i < j {
        law_retired_protected_throughout(states, c, x, i, j - 1);
        assert(states[j - 1].spares_retired(states[j]));
        assert(states[j - 1].same_session(states[j], c));
    }
}

/// The epoch does not go back.
pub proof fn law_epoch_monotonic<T, F>(states: Seq<Model<T, F>>, i: int, j: int)
    requires
        wider_history(states),
        0 <= i <= j < states.len(),
    ensures
        states[i].epoch <= states[j].epoch,
    decreases j - i,
{
    if i < j {
        law_epoch_monotonic(states, i, j - 1);
        assert(states[j - 1].spares_retired(states[j]));
    }
}

/// Whatever happens after the execution of a closure, or dropping of an instance, was deferred: it
/// does not take place before every thread that was reading at that moment has stopped doing so.
pub proof fn law_deferred_after_readers<T, F>(
    states: Seq<Model<T, F>>,
    guard: Guard,
    x: usize,
    payload: Payload<T, F>,
    c: usize,
    i: int,
    j: int,
)
    requires
        wider_history(states),
        0 <= i < j < states.len(),
        guard.valid(states[i]),
        !states[i].occupied(x),
        states[i + 1] == states[i].defer(guard.collector_ptr, x, payload),
        states[i].pinned(c),
        forall|k: int|
            i < k <= j ==> {
                &&& (#[trigger] states[k]).pinned(c)
                &&& states[k].collectors[c].session == states[i].collectors[c].session
            },
    ensures
        states[j].instances.contains_key(x),
        states[j].instances[x].body == payload,
{
    law_deferred_waits(states[i], guard, x, payload, c);
    assert(states[i + 1].collectors[c].session == states[i].collectors[c].session);
    law_retired_protected_throughout(states, c, x, i + 1, j);
}

/// Nobody can reach an instance once the global epoch is three epochs past the one in which the
/// thread that retired it was at that time.
pub proof fn law_next_generation_unreachable<T, F>(
    model: Model<T, F>,
    guard: Guard,
    x: usize,
    later: Model<T, F>,
    reader: usize,
)
    requires
        model.inv(),
        guard.valid(model),
        later.inv(),
        later.instances.contains_key(x),
        later.instances[x].retirement == Some(model.retirement_now(guard.collector_ptr)),
        later.epoch >= model.collectors[guard.collector_ptr].seen + 3,
    ensures
        !later.protects(reader, x),
{
    model.lemma_guard(guard.collector_ptr, guard.token@);
    later.lemma_expired(reader, x);
}

/// A [`Ptr`] to an instance to which there is a strong reference can be read under the guard that
/// it was obtained with.
pub proof fn law_ptr_valid<T, F>(model: Model<T, F>, guard: Guard, ptr: Ptr<T>, token: nat)
    requires
        model.inv(),
        guard.valid(model),
        ptr.collector@ == guard.collector_ptr,
        ptr.session == guard.session,
        ptr.target() != 0 ==> model.owned(ptr.target(), token),
    ensures
        ptr.valid(model),
{
    model.lemma_guard(guard.collector_ptr, guard.token@);
    if ptr.target() != 0 {
        model.lemma_reach(guard.collector_ptr, ptr.target(), token);
    }
}

/// A [`Ptr`] can outlive every strong reference to its instance: it can be read, with the same
/// result, as long as its guard has not been dropped.
pub proof fn law_ptr_outlives<T, F>(
    pre: Model<T, F>,
    post: Model<T, F>,
    guard: Guard,
    ptr: Ptr<T>,
    gone: Set<nat>,
)
    requires
        pre.inv(),
        post.inv(),
        pre.retains(post, gone),
        guard.valid(pre),
        !gone.contains(guard.token@),
        ptr.collector@ == guard.collector_ptr,
        ptr.session == guard.session,
        ptr.valid(pre),
    ensures
        guard.valid(post),
        ptr.valid(post),
        ptr.target() != 0 ==> post.value(ptr.target()) == pre.value(ptr.target()),
{
    let c = guard.collector_ptr;
    pre.lemma_guard(c, guard.token@);
    post.lemma_guard(c, guard.token@);
    assert(pre.same_session(post, c));
}

/// Whatever is deferred waits for every thread that reads at that moment.
pub proof fn law_deferred_waits<T, F>(
    model: Model<T, F>,
    guard: Guard,
    x: usize,
    payload: Payload<T, F>,
    c: usize,
)
    requires
        model.inv(),
        guard.valid(model),
        !model.occupied(x),
        model.pinned(c),
    ensures
        model.defer(guard.collector_ptr, x, payload).protects(c, x),
        model.defer(guard.collector_ptr, x, payload).instances[x].body == payload,
{
    let put = model.put(x, payload);
    assert(put.pinned(c));
    law_retired_waits(put, guard.collector_ptr, x, c);
}

/// Whatever is retired waits for every thread that reads at that moment.
pub proof fn law_retired_waits<T, F>(model: Model<T, F>, holder: usize, x: usize, c: usize)
    requires
        model.instances.contains_key(x),
        model.registered(holder),
        model.collectors.contains_key(holder),
        model.pinned(c),
    ensures
        model.retire(holder, x).protects(c, x),
{
    let post = model.retire(holder, x);
    assert(model.sessions().contains(model.collectors[c].session));
    assert(post.registered(c));
}

/// Nobody can read what is about to be reclaimed: it was retired at least two epochs ago.
pub proof fn law_garbage_expired<T, F>(model: Model<T, F>, c: usize, x: usize, reader: usize)
    requires
        model.inv(),
        model.registered(c),
        model.collectors[c].garbage.contains(x),
        model.instances.contains_key(x),
    ensures
        model.instances[x].retirement is Some,
        model.instances[x].retirement->0.stamp + 2 <= model.epoch,
        !model.protects(reader, x),
{
    assert(model.collectors[c].holds(x));
    assert(model.keeps(c, x));
    assert(model.stamp_ok(c, x));
    assert(model.occupied(x));
    model.lemma_expired(reader, x);
}

/// A guard keeps the global epoch from going further than one epoch past the one that the thread
/// has announced.
pub proof fn law_epoch_held_back<T, F>(model: Model<T, F>, guard: Guard)
    requires
        model.inv(),
        guard.valid(model),
    ensures
        ({
            let collector = model.collectors[guard.collector_ptr];
            &&& collector.seen <= model.epoch <= collector.seen + 1
            &&& collector.announcement == epoch::epoch_word(collector.seen)
        }),
{
    model.lemma_guard(guard.collector_ptr, guard.token@);
    assert(model.collectors[guard.collector_ptr].local_ok());
}

/// An instance is reclaimed when its thread acknowledges the third epoch change after the instance
/// was retired, and no earlier.
pub proof fn law_third_epoch<T, F>(model: Model<T, F>, c: usize, x: usize)
    requires
        model.inv(),
        model.registered(c),
        model.collectors[c].num_readers > 0,
        model.collectors[c].settled(),
        !model.collectors[c].invalid,
        model.due(c),
        model.instances.contains_key(x),
    ensures
        ({
            let post = model.epoch_updated(c);
            &&& model.collectors[c].current.contains(x) ==> {
                &&& post.collectors[c].previous.contains(x)
                &&& post.instances.contains_key(x)
            }
            &&& model.collectors[c].previous.contains(x) ==> {
                &&& post.collectors[c].next.contains(x)
                &&& post.instances.contains_key(x)
            }
            &&& model.collectors[c].next.contains(x) ==> {
                &&& !post.occupied(x)
                &&& post.dropped.contains(model.instances[x].body)
            }
        }),
{
    let rotated = model.rotate(c);
    let post = model.epoch_updated(c);
    let bound = rotated.rank(c);
    model.lemma_rotate(c);
    model.lemma_respects_epoch_updated(c);
    rotated.lemma_drop_bag(c, Bag::Garbage, bound);
    rotated.lemma_drop_bag_removes(c, Bag::Garbage, bound);
    rotated.lemma_drop_bag_contents(c, Bag::Garbage, bound);
    let list = rotated.collectors[c].garbage;
    assert(model.occupied(x));
    assert(rotated.occupied(x));
    if model.collectors[c].current.contains(x) || model.collectors[c].previous.contains(x) {
        assert(rotated.collectors[c].holds(x));
        assert(post.collectors[c].holds(x));
        assert(post.keeps(c, x));
        assert(post.occupied(x));
        assert(post.collectors.contains_key(x) ==> rotated.collectors.contains_key(x));
    }
    if model.collectors[c].next.contains(x) {
        assert(list.contains(x));
        assert(rotated.under(x, list));
        assert(rotated.removed(post, x));
        lemma_contents_contain(rotated, list, bound, x);
        let i = rotated.contents(list, bound).index_of(model.instances[x].body);
        assert(post.dropped[rotated.dropped.len() + i] == model.instances[x].body);
    }
}

/// What is destroyed with a list contains the instances in the list.
proof fn lemma_contents_contain<T, F>(
    model: Model<T, F>,
    list: Seq<usize>,
    bound: nat,
    x: usize,
)
    requires
        list.contains(x),
        model.instances.contains_key(x),
    ensures
        model.contents(list, bound).contains(model.instances[x].body),
    decreases list.len(),
{
    let body = model.instances[x].body;
    let contents = model.contents(list, bound);
    let rest = model.contents(list.skip(1), bound);
    if list[0] == x {
        assert(contents[0] == body);
    } else {
        let i = list.index_of(x);
        assert(list.skip(1)[i - 1] == x);
        lemma_contents_contain(model, list.skip(1), bound, x);
        let k = rest.index_of(body);
        assert(contents[contents.len() - rest.len() + k] == body);
    }
}

/// When a thread acknowledges an epoch change, what leaves the domain is what was retired three
/// epochs ago, together with all that is kept by collectors among it. Every instance among it is
/// destroyed once, in the order in which it is found.
pub proof fn law_reclaimed_exactly<T, F>(model: Model<T, F>, c: usize)
    requires
        model.inv(),
        model.registered(c),
        model.collectors[c].num_readers > 0,
        model.collectors[c].settled(),
        !model.collectors[c].invalid,
        model.due(c),
    ensures
        ({
            let rotated = model.rotate(c);
            let post = model.epoch_updated(c);
            &&& forall|a: usize| #[trigger]
                rotated.removed(post, a) == (rotated.occupied(a) && rotated.under(
                    a,
                    model.collectors[c].next,
                ))
            &&& post.dropped == model.dropped + rotated.contents(
                model.collectors[c].next,
                rotated.rank(c),
            )
            &&& post.dropped.len() - model.dropped.len() == model.instances.dom().len()
                - post.instances.dom().len()
        }),
{
    let rotated = model.rotate(c);
    model.lemma_rotate(c);
    rotated.lemma_drop_bag_stock(c, Bag::Garbage, rotated.rank(c));
    rotated.lemma_drop_bag_removes(c, Bag::Garbage, rotated.rank(c));
    rotated.lemma_drop_bag_contents(c, Bag::Garbage, rotated.rank(c));
}

/// What has been retired is kept in one list of one collector until it is reclaimed.
pub proof fn law_kept_once<T, F>(model: Model<T, F>, x: usize, c: usize)
    requires
        model.inv(),
        model.retirement(x) is Some,
    ensures
        ({
            let holder = model.retirement(x)->0.holder;
            &&& model.collectors.contains_key(holder)
            &&& model.collectors[holder].holds(x)
            &&& model.collectors[holder].distinct()
            &&& model.collectors.contains_key(c) && model.collectors[c].holds(x) ==> c == holder
        }),
{
    let holder = model.retirement(x)->0.holder;
    assert(model.collectors.contains_key(holder));
    if model.collectors.contains_key(c) && model.collectors[c].holds(x) {
        assert(model.keeps(c, x));
    }
}

/// There is no way back for a retired instance: it has no strong reference, and none can be added
/// to it.
pub proof fn law_retired_for_good<T, F>(domain: Domain<T, F>, x: usize)
    requires
        domain.wf(),
        domain@.instances.contains_key(x),
        domain@.instances[x].retirement is Some,
    ensures
        domain@.instances[x].refs.len() == 0,
        !domain@.live(x),
        domain.heap@[x].link().ref_cnt % 2 == 0,
{
    domain.lemma_link_even(x);
}

/// The counter of a reference-counted instance is one less than twice the number of strong
/// references.
pub proof fn law_reference_count<T, F>(domain: Domain<T, F>, x: usize)
    requires
        domain.wf(),
        domain@.live(x),
        domain@.instances[x].shared,
    ensures
        domain.heap@[x].link().ref_cnt == 2 * domain@.instances[x].refs.len() - 1,
{
    assert(domain::instance_rep(domain.heap@[x], domain@.instances[x]));
}

/// The number of readers of a collector is the number of guards of its thread.
pub proof fn law_guard_count<T, F>(model: Model<T, F>, c: usize)
    requires
        model.inv(),
        model.registered(c),
        !model.collectors[c].invalid,
        model.collectors[c].pending is None,
    ensures
        model.collectors[c].guards.finite(),
        model.collectors[c].guards.len() == model.collectors[c].num_readers,
{
    assert(model.collectors[c].local_ok());
}

/// A guard that is created and dropped while there is another one leaves no trace.
pub proof fn law_nested_guard<T, F>(model: Model<T, F>, c: usize, collect_garbage: bool)
    requires
        model.inv(),
        model.registered(c),
        0 < model.collectors[c].num_readers < u32::MAX,
    ensures
        model.new_guard(c, collect_garbage).end_guard(c, model.tokens) == (Model {
            tokens: model.tokens + 1,
            ..model
        }),
{
    let nested = model.nest(c);
    let left = nested.leave(c, model.tokens);
    assert(!model.collectors[c].guards.contains(model.tokens));
    assert(left.collectors[c].guards =~= model.collectors[c].guards);
    assert(left.collectors =~= model.collectors);
}

/// A strong reference that is added and dropped leaves no trace.
pub proof fn law_added_reference<T, F>(model: Model<T, F>, x: usize)
    requires
        model.inv(),
        model.live(x),
    ensures
        model.share(x).unshare(x, model.tokens) == (Model { tokens: model.tokens + 1, ..model }),
{
    let post = model.share(x).unshare(x, model.tokens);
    assert(!model.instances[x].refs.contains(model.tokens));
    assert(post.instances[x].refs =~= model.instances[x].refs);
    assert(post.instances =~= model.instances);
}

/// A thread that suspends its garbage collector has none afterwards if there were retired
/// instances; these stay where they are, in a collector that other threads are told to take over.
pub proof fn law_suspend<T, F>(model: Model<T, F>, thread: int)
    requires
        model.inv(),
        model.at_rest(thread),
    ensures
        ({
            let c = model.locals[thread];
            let post = model.pass_garbage(thread);
            if c != 0 && model.collectors[c].num_readers == 0 && model.collectors[c].has_garbage {
                &&& post.locals[thread] == 0
                &&& post.registered(c)
                &&& post.collectors[c].invalid
                &&& post.tag == Tag::Second || post.tag == Tag::Both
                &&& post.instances == model.instances
                &&& forall|x: usize| #[trigger]
                    post.collectors[c].holds(x) == model.collectors[c].holds(x)
            } else {
                &&& post == model
                &&& c != 0 && model.collectors[c].num_readers == 0 ==> model.collectors[c].empty()
            }
        }),
{
    let c = model.locals[thread];
    if c != 0 {
        assert(model.collectors[c].local_ok());
        assert(model.pass_garbage(thread).registered(c));
    }
}

/// A scan changes the epoch if and only if every thread is ready, which takes it one further. Valid
/// collectors stay in the chain. The invalid ones that leave it are from then on kept by the
/// scanning thread. If the epoch changes, these are all of them: the others stay in the chain in the
/// same order, and the invalid ones stand, the last one first, in front of what the scanning thread
/// has retired most recently.
pub proof fn law_scan<T, F>(model: Model<T, F>, c: usize)
    requires
        model.inv(),
        model.lock is Free,
        model.registered(c),
        model.collectors[c].active(),
        model.collectors[c].num_readers == 0,
    ensures
        ({
            let all = model.all_ready(c, model.chain);
            let post = model.scan(c);
            &&& post.epoch == if all {
                model.collectors[c].seen + 1
            } else {
                model.epoch
            }
            &&& model.epoch <= post.epoch <= model.epoch + 1
            &&& forall|d: usize|
                #![trigger post.registered(d)]
                #![trigger model.registered(d)]
                {
                    &&& post.registered(d) ==> model.registered(d)
                    &&& model.registered(d) && !model.collectors[d].invalid ==> post.registered(d)
                    &&& model.registered(d) && !post.registered(d) ==> post.collectors[c].holds(d)
                    &&& all && model.registered(d) && model.collectors[d].invalid
                        ==> !post.registered(d)
                }
            &&& all ==> {
                &&& post.chain == model.upheld(model.chain)
                &&& post.collectors[c].current == model.given_up(model.chain)
                    + model.collectors[c].current
            }
        }),
{
    let post = model.scan(c);
    model.lemma_scanned(c);
    if model.all_ready(c, model.chain) {
        model.lemma_scanned_order(c);
    }
    model.lemma_scan(c);
    assert(model.collectors[c].local_ok());
    assert forall|d: usize|
        #![trigger post.registered(d)]
        #![trigger model.registered(d)]
        model.registered(d) && !post.registered(d) implies post.collectors[c].holds(d) by {
        assert(post.collectors[d].retirement is Some);
        model.lemma_scan_occupied(c, d);
        assert(post.retirement(d) is Some);
    }
}

/// The last guard of an accelerated thread makes the thread scan the chain, unless another thread
/// does so.
pub proof fn law_accelerate<T, F>(model: Model<T, F>, guard: Guard)
    requires
        model.inv(),
        guard.valid(model),
        model.lock is Free,
        model.collectors[guard.collector_ptr].num_readers == 1,
    ensures
        ({
            let c = guard.collector_ptr;
            model.accelerate(c).end_guard(c, guard.token@) == model.accelerate(c).leave(
                c,
                guard.token@,
            ).scan(c).retreat(c)
        }),
{
}

/// A thread that is alone changes the epoch by dropping its only guard after acceleration.
pub proof fn law_progress<T, F>(model: Model<T, F>, guard: Guard)
    requires
        model.inv(),
        guard.valid(model),
        model.lock is Free,
        model.chain == seq![guard.collector_ptr],
        model.collectors[guard.collector_ptr].num_readers == 1,
    ensures
        ({
            let c = guard.collector_ptr;
            model.accelerate(c).end_guard(c, guard.token@).epoch == model.collectors[c].seen + 1
        }),
{
    let c = guard.collector_ptr;
    let hastened = model.accelerate(c);
    let left = hastened.leave(c, guard.token@);
    model.lemma_guard(c, guard.token@);
    model.lemma_mark();
    assert(model.mark().registered(c));
    model.mark().lemma_hasten(c);
    assert(hastened.registered(c));
    hastened.lemma_leave(c, guard.token@);
    assert(left.registered(c));
    assert(left.all_ready(c, left.chain));
    left.lemma_scanned(c);
    law_accelerate(model, guard);
}

/// A thread that is alone makes progress by passing through a protected region in a hurry: the
/// epoch changes every time, and so instances that were retired before get one list closer to being
/// reclaimed, and are in the end.
pub proof fn law_round<T, F>(model: Model<T, F>, c: usize)
    requires
        model.inv(),
        model.calm(c),
        model.lock is Free,
        model.chain == seq![c],
        model.collectors[c].num_readers == 0,
    ensures
        ({
            let post = model.round(c);
            &&& post.inv()
            &&& post.calm(c)
            &&& post.lock is Free
            &&& post.chain == model.chain
            &&& post.collectors[c].num_readers == 0
            &&& post.epoch == model.epoch + 1
            &&& post.collectors[c].announcement == epoch::epoch_word(model.epoch)
            &&& if model.collectors[c].announcement != epoch::epoch_word(model.epoch) {
                &&& post.collectors[c].current.len() == 0
                &&& post.collectors[c].previous == model.collectors[c].current
                &&& post.collectors[c].next == model.collectors[c].previous
                &&& forall|x: usize| #[trigger]
                    model.collectors[c].next.contains(x) ==> !post.occupied(x)
            } else {
                &&& post.collectors[c].current == model.collectors[c].current
                &&& post.collectors[c].previous == model.collectors[c].previous
                &&& post.collectors[c].next == model.collectors[c].next
            }
        }),
{
    let announced = model.enter(c).announce(c);
    let guarded = model.new_guard(c, true);
    let hastened = guarded.accelerate(c);
    let left = hastened.leave(c, model.tokens);
    let post = model.round(c);
    let guard = Guard {
        collector_ptr: c,
        token: Ghost(model.tokens),
        session: Ghost(guarded.collectors[c].session),
    };
    model.lemma_respects_new_guard(c, true);
    model.lemma_enter(c);
    assert(model.enter(c).registered(c));
    model.enter(c).lemma_announce(c);
    assert(announced.registered(c));
    if model.collectors[c].announcement != epoch::epoch_word(model.epoch) {
        announced.lemma_respects_epoch_updated(c);
        let rotated = announced.rotate(c);
        announced.lemma_rotate(c);
        rotated.lemma_drop_bag(c, Bag::Garbage, rotated.rank(c));
        assert forall|x: usize| #[trigger] model.collectors[c].next.contains(
            x,
        ) implies !guarded.occupied(x) by {
            assert(rotated.collectors[c].garbage.contains(x));
            assert(rotated.collectors[c].holds(x));
            assert(rotated.keeps(c, x));
            assert(rotated.occupied(x));
            rotated.lemma_drop_bag_removes(c, Bag::Garbage, rotated.rank(c));
            assert(rotated.under(x, rotated.collectors[c].garbage));
            assert(rotated.removed(guarded, x));
        }
    }
    assert(guarded.chain == model.chain);
    assert(guarded.lock == model.lock);
    law_progress(guarded, guard);
    law_accelerate(guarded, guard);
    assert(hastened.inv()) by {
        guarded.lemma_mark();
        assert(guarded.mark().registered(c));
        guarded.mark().lemma_hasten(c);
    }
    assert(hastened.registered(c));
    hastened.lemma_respects_end_guard(c, model.tokens);
    hastened.lemma_leave(c, model.tokens);
    lemma_scan_alone(left, c);
}

/// A thread that is alone changes nothing but the epoch by scanning the chain.
proof fn lemma_scan_alone<T, F>(model: Model<T, F>, c: usize)
    requires
        model.lock is Free,
        model.chain == seq![c],
    ensures
        model.scan(c).lock is Free,
        model.scan(c).chain == model.chain,
        model.scan(c).collectors == model.collectors,
        model.scan(c).instances == model.instances,
        model.scan(c).dropped == model.dropped,
        model.scan(c).epoch == model.collectors[c].seen + 1,
{
    let locked = model.scan_lock(c);
    assert(locked.scan_next() == locked.scan_pass());
    assert(locked.scan_pass().lock->Scan_0.rest.len() == 0);
    assert(locked.scan_pass().scan_run() == locked.scan_pass().scan_advance());
}

/// A thread that is alone gets a guard, drops one, or does something else in its own right.
/// Destructors do not fail.
pub open spec fn solo_step<T, F>(pre: Model<T, F>, post: Model<T, F>, c: usize) -> bool {
    ||| pre.collectors[c].num_readers < u32::MAX && pre.new_guard(c, true).acts(post, c)
    ||| exists|guard: nat| #[trigger] pre.guarded(c, guard) && post == pre.end_guard(c, guard)
    ||| pre.acts(post, c)
}

/// The states of a program with one thread, which has no guard at the outset.
pub open spec fn solo<T, F>(states: Seq<Model<T, F>>, c: usize) -> bool {
    &&& states.len() > 0
    &&& states[0].collectors[c].num_readers == 0
    &&& forall|i: int|
        0 <= i < states.len() ==> {
            &&& (#[trigger] states[i]).inv()
            &&& states[i].calm(c)
            &&& states[i].lock is Free
            &&& states[i].chain == seq![c]
        }
    &&& forall|i: int, j: int|
        0 <= i && j == i + 1 && j < states.len() ==> solo_step(
            #[trigger] states[i],
            #[trigger] states[j],
            c,
        )
}

/// The value is that of the epoch, or of one of the two after it.
pub open spec fn within_two(epoch: Epoch, value: u8) -> bool {
    value == epoch@ || value == epoch.later(1) || value == epoch.later(2)
}

/// In a program with one thread, an instance that is retired after a guard has read an epoch, and
/// before a guard reads another one, stays in place, with the same value, for as long as guards read
/// the same epoch, the next one, or the one after that. It makes no difference whether there is a
/// guard when the instance is retired. The first guard that reads another value reads the previous
/// epoch of the one that was read at first, and the instance has been reclaimed when the guard was
/// created.
pub proof fn law_witnessed_epochs<T, F>(
    states: Seq<Model<T, F>>,
    c: usize,
    x: usize,
    h: int,
    i: int,
    j: int,
)
    requires
        solo(states, c),
        0 <= h <= i < j < states.len(),
        states[h].collectors[c].num_readers > 0,
        forall|k: int|
            h < k <= i && (#[trigger] states[k]).collectors[c].num_readers > 0
                ==> epoch::epoch_word(states[k].epoch) == epoch::epoch_word(states[h].epoch),
        states[i].instances.contains_key(x),
        states[i].instances[x].retirement is None,
        states[i + 1] == states[i].retire(c, x),
        forall|k: int|
            i < k < j && (#[trigger] states[k]).collectors[c].num_readers > 0 ==> within_two(
                Epoch(epoch::epoch_word(states[h].epoch)),
                epoch::epoch_word(states[k].epoch),
            ),
    ensures
        ({
            let witnessed = Epoch(epoch::epoch_word(states[h].epoch));
            let read = epoch::epoch_word(states[j].epoch);
            if states[j].collectors[c].num_readers > 0 && !within_two(witnessed, read) {
                let reclaimed = states[j - 1].new_guard(c, true);
                &&& read == witnessed.later(3)
                &&& reclaimed.acts(states[j], c)
                &&& states[j - 1].instances.contains_key(x)
                &&& !reclaimed.occupied(x)
                &&& reclaimed.dropped.contains(states[i].instances[x].body)
            } else {
                &&& states[j].instances.contains_key(x)
                &&& states[j].instances[x].body == states[i].instances[x].body
                &&& states[j].instances[x].retirement is Some
            }
        }),
{
    lemma_solo_held(states, c, h);
    lemma_solo_same(states, c, h, i);
    lemma_solo_kept(states, c, x, i, j);
}

/// A thread that is alone acknowledges no epoch without a guard that reads it.
proof fn lemma_solo_same<T, F>(states: Seq<Model<T, F>>, c: usize, h: int, i: int)
    requires
        solo(states, c),
        0 <= h <= i < states.len(),
        states[h].collectors[c].num_readers > 0,
        states[h].epoch == states[h].collectors[c].seen,
        forall|k: int|
            h < k <= i && (#[trigger] states[k]).collectors[c].num_readers > 0
                ==> epoch::epoch_word(states[k].epoch) == epoch::epoch_word(states[h].epoch),
    ensures
        states[i].collectors[c].seen == states[h].collectors[c].seen,
        states[i].collectors[c].announcement == epoch::epoch_word(states[i].collectors[c].seen),
        states[i].epoch <= states[i].collectors[c].seen + 1,
    decreases i,
{
    assert(states[h].inv());
    assert(states[h].collectors[c].local_ok());
    if h < i {
        let pre = states[i - 1];
        let post = states[i];
        lemma_solo_same(states, c, h, i - 1);
        lemma_solo_held(states, c, i - 1);
        assert(pre.inv());
        assert(solo_step(pre, post, c));
        lemma_solo_step(pre, post, c);
        if post.collectors[c].seen != pre.collectors[c].seen {
            assert(post.collectors[c].num_readers > 0);
            assert(epoch::epoch_word(post.epoch) == epoch::epoch_word(states[h].epoch));
            assert(false);
        }
    }
}

/// While a thread that is alone has a guard, the epoch is the one that it has announced.
proof fn lemma_solo_held<T, F>(states: Seq<Model<T, F>>, c: usize, i: int)
    requires
        solo(states, c),
        0 <= i < states.len(),
    ensures
        states[i].collectors[c].num_readers > 0 ==> states[i].epoch == states[i].collectors[c].seen,
    decreases i,
{
    if i > 0 {
        lemma_solo_held(states, c, i - 1);
        assert(solo_step(states[i - 1], states[i], c));
        lemma_solo_step(states[i - 1], states[i], c);
    }
}

/// The lists of a collector that are further from being reclaimed contain the same items.
pub open spec fn same_lists<T, F>(pre: Model<T, F>, post: Model<T, F>, c: usize) -> bool {
    &&& post.collectors[c].previous == pre.collectors[c].previous
    &&& post.collectors[c].next == pre.collectors[c].next
    &&& forall|y: usize| #[trigger]
        pre.collectors[c].current.contains(y) ==> post.collectors[c].current.contains(y)
    &&& forall|y: usize| #[trigger]
        pre.instances.contains_key(y) && pre.instances[y].retirement is Some
            ==> post.instances.contains_key(y) && post.instances[y] == pre.instances[y]
}

/// What a thread does in its own right keeps what has been retired in the lists.
proof fn lemma_acts_lists<T, F>(pre: Model<T, F>, post: Model<T, F>, c: usize)
    requires
        pre.acts(post, c),
    ensures
        same_lists(pre, post, c),
{
    let list = pre.collectors[c].current;
    let longer = post.collectors[c].current;
    assert forall|y: usize| #[trigger] list.contains(y) implies longer.contains(y) by {
        let k = list.index_of(y);
        assert(longer.skip(longer.len() - list.len())[k] == longer[longer.len() - list.len() + k]);
    }
}

/// What is reclaimed, and what moves one list on, when a thread acknowledges an epoch change.
pub open spec fn moved_lists<T, F>(pre: Model<T, F>, post: Model<T, F>, c: usize) -> bool {
    let guarded = pre.new_guard(c, true);
    &&& guarded.acts(post, c)
    &&& post.collectors[c].num_readers > 0
    &&& post.collectors[c].previous == pre.collectors[c].current
    &&& post.collectors[c].next == pre.collectors[c].previous
    &&& forall|y: usize| #[trigger]
        pre.instances.contains_key(y) && (pre.collectors[c].current.contains(y)
            || pre.collectors[c].previous.contains(y)) ==> {
            &&& post.instances.contains_key(y)
            &&& post.instances[y] == pre.instances[y]
        }
    &&& forall|y: usize| #[trigger]
        pre.instances.contains_key(y) && pre.collectors[c].next.contains(y) ==> {
            &&& !guarded.occupied(y)
            &&& guarded.dropped.contains(pre.instances[y].body)
        }
}

/// A thread that is alone, and has no guard, gets one in a new epoch.
#[verifier::spinoff_prover]
proof fn lemma_solo_moved<T, F>(pre: Model<T, F>, post: Model<T, F>, c: usize)
    requires
        pre.inv(),
        pre.calm(c),
        pre.collectors[c].num_readers == 0,
        pre.collectors[c].announcement != epoch::epoch_word(pre.epoch),
        pre.new_guard(c, true).acts(post, c),
    ensures
        moved_lists(pre, post, c),
{
    let announced = pre.enter(c).announce(c);
    let guarded = pre.new_guard(c, true);
    let rotated = announced.rotate(c);
    pre.lemma_respects_new_guard(c, true);
    pre.lemma_enter(c);
    assert(pre.enter(c).registered(c));
    pre.enter(c).lemma_announce(c);
    assert(announced.registered(c));
    announced.lemma_rotate(c);
    announced.lemma_respects_epoch_updated(c);
    rotated.lemma_drop_bag(c, Bag::Garbage, rotated.rank(c));
    assert forall|y: usize| #[trigger]
        pre.instances.contains_key(y) && (pre.collectors[c].current.contains(y)
            || pre.collectors[c].previous.contains(y)) implies {
        &&& post.instances.contains_key(y)
        &&& post.instances[y] == pre.instances[y]
    } by {
        law_third_epoch(announced, c, y);
        assert(guarded.instances[y] == pre.instances[y]);
        assert(pre.collectors[c].holds(y));
        assert(pre.keeps(c, y));
        assert(pre.occupied(y));
        assert(pre.instances[y].retirement is Some);
    }
    assert forall|y: usize| #[trigger]
        pre.instances.contains_key(y) && pre.collectors[c].next.contains(y) implies {
        &&& !guarded.occupied(y)
        &&& guarded.dropped.contains(pre.instances[y].body)
    } by {
        law_third_epoch(announced, c, y);
    }
}

/// What a step of a thread that is alone makes of the epoch, and of its lists.
#[verifier::spinoff_prover]
proof fn lemma_solo_step<T, F>(pre: Model<T, F>, post: Model<T, F>, c: usize)
    requires
        pre.inv(),
        pre.calm(c),
        pre.lock is Free,
        pre.chain == seq![c],
        pre.collectors[c].num_readers > 0 ==> pre.epoch == pre.collectors[c].seen,
        solo_step(pre, post, c),
    ensures
        post.collectors[c].num_readers > 0 ==> post.epoch == post.collectors[c].seen,
        pre.collectors[c].announcement == epoch::epoch_word(pre.collectors[c].seen) && pre.epoch
            <= pre.collectors[c].seen + 1 ==> {
            &&& post.collectors[c].announcement == epoch::epoch_word(post.collectors[c].seen)
            &&& post.epoch <= post.collectors[c].seen + 1
            &&& if post.collectors[c].seen == pre.collectors[c].seen {
                same_lists(pre, post, c)
            } else {
                post.collectors[c].seen == pre.collectors[c].seen + 1 && moved_lists(pre, post, c)
            }
        },
{
    assert(pre.collectors[c].local_ok());
    if pre.collectors[c].num_readers < u32::MAX && pre.new_guard(c, true).acts(post, c) {
        let guarded = pre.new_guard(c, true);
        pre.lemma_respects_new_guard(c, true);
        lemma_acts_lists(guarded, post, c);
        if pre.collectors[c].num_readers == 0 {
            let announced = pre.enter(c).announce(c);
            if pre.collectors[c].announcement != epoch::epoch_word(pre.epoch) {
                lemma_solo_moved(pre, post, c);
                pre.lemma_enter(c);
                assert(pre.enter(c).registered(c));
                pre.enter(c).lemma_announce(c);
                assert(announced.registered(c));
                announced.lemma_respects_epoch_updated(c);
            }
        }
    } else if pre.acts(post, c) {
        lemma_acts_lists(pre, post, c);
    } else {
        let guard = choose|guard: nat| #[trigger]
            pre.guarded(c, guard) && post == pre.end_guard(c, guard);
        let left = pre.leave(c, guard);
        pre.lemma_respects_end_guard(c, guard);
        lemma_scan_alone(left, c);
    }
}

/// Where an instance is that was retired so many epochs ago, as its thread has acknowledged them.
spec fn in_place<T, F>(model: Model<T, F>, c: usize, x: usize, retired: Model<T, F>) -> bool {
    let collector = model.collectors[c];
    let first = retired.collectors[c].seen;
    &&& collector.announcement == epoch::epoch_word(collector.seen)
    &&& model.epoch <= collector.seen + 1
    &&& first <= collector.seen <= first + 2
    &&& collector.seen == first ==> collector.current.contains(x)
    &&& collector.seen == first + 1 ==> collector.previous.contains(x)
    &&& collector.seen == first + 2 ==> collector.next.contains(x)
    &&& model.instances.contains_key(x)
    &&& model.instances[x].body == retired.instances[x].body
    &&& model.instances[x].retirement is Some
}

/// See [`law_witnessed_epochs`].
proof fn lemma_solo_kept<T, F>(states: Seq<Model<T, F>>, c: usize, x: usize, i: int, j: int)
    requires
        solo(states, c),
        0 <= i < j < states.len(),
        states[i].collectors[c].announcement == epoch::epoch_word(states[i].collectors[c].seen),
        states[i].epoch <= states[i].collectors[c].seen + 1,
        states[i].instances.contains_key(x),
        states[i].instances[x].retirement is None,
        states[i + 1] == states[i].retire(c, x),
        forall|k: int|
            i < k < j && (#[trigger] states[k]).collectors[c].num_readers > 0 ==> within_two(
                Epoch(epoch::epoch_word(states[i].collectors[c].seen)),
                epoch::epoch_word(states[k].epoch),
            ),
    ensures
        in_place(states[j], c, x, states[i]) || {
            &&& j > i + 1
            &&& in_place(states[j - 1], c, x, states[i])
            &&& states[j - 1].collectors[c].next.contains(x)
            &&& states[j].collectors[c].seen == states[i].collectors[c].seen + 3
            &&& states[j].epoch == states[j].collectors[c].seen
            &&& moved_lists(states[j - 1], states[j], c)
        },
        states[j].collectors[c].num_readers > 0 ==> states[j].epoch == states[j].collectors[c].seen,
    decreases j,
{
    lemma_solo_held(states, c, j);
    if j == i + 1 {
        assert(states[i].collectors[c].local_ok());
        assert(states[j].collectors[c].current[0] == x);
    } else {
        lemma_solo_kept(states, c, x, i, j - 1);
        let pre = states[j - 1];
        let post = states[j];
        assert(pre.inv());
        assert(post.inv());
        if !in_place(pre, c, x, states[i]) {
            assert(pre.collectors[c].num_readers > 0);
            assert(within_two(
                Epoch(epoch::epoch_word(states[i].collectors[c].seen)),
                epoch::epoch_word(pre.epoch),
            ));
            assert(false);
        }
        assert(solo_step(pre, post, c));
        lemma_solo_held(states, c, j - 1);
        lemma_solo_step(pre, post, c);
    }
}

/// If every thread has given up its collector, the terminating thread clears the chain: none of
/// its collectors is left, nor anything that they keep.
pub proof fn law_chain_cleared<T, F>(model: Model<T, F>, c: usize, x: usize)
    requires
        model.inv(),
        model.lock is Free,
        model.all_invalid(model.chain),
        model.registered(c),
        model.collectors[c].holds(x),
    ensures
        model.clear_chain().chain.len() == 0,
        !model.clear_chain().occupied(c),
        !model.clear_chain().occupied(x),
{
    let post = model.clear_chain();
    model.lemma_cleared();
    assert(model.collectors.contains_key(c));
    assert(model.keeps(c, x));
    if post.occupied(x) {
        assert(post.retirement(x) == model.retirement(x));
        assert(post.collectors.contains_key(c));
        assert(post.occupied(c));
    }
}

/// If dropping an instance fails, nothing that was due to be reclaimed is lost: the thread keeps
/// all of it.
pub proof fn law_recollected<T, F>(model: Model<T, F>, c: usize)
    requires
        model.inv(),
        model.registered(c),
        model.collectors[c].settled(),
    ensures
        ({
            let post = model.recollect_all(c);
            &&& post.inv()
            &&& post.instances == model.instances
            &&& post.collectors[c].garbage.len() == 0
            &&& forall|x: usize| #[trigger]
                post.collectors[c].holds(x) == model.collectors[c].holds(x)
        }),
    decreases model.collectors[c].garbage.len(),
{
    let garbage = model.collectors[c].garbage;
    if garbage.len() > 0 {
        let next = model.recollect(c);
        model.lemma_recollect(c);
        assert(next.registered(c));
        law_recollected(next, c);
        assert forall|x: usize| #[trigger]
            next.collectors[c].holds(x) == model.collectors[c].holds(x) by {
            assert(next.collectors[c].current[0] == garbage[0]);
            if model.collectors[c].current.contains(x) {
                let i = model.collectors[c].current.index_of(x);
                assert(next.collectors[c].current[i + 1] == x);
            }
            if garbage.contains(x) && x != garbage[0] {
                let i = garbage.index_of(x);
                assert(next.collectors[c].garbage[i - 1] == x);
            }
        }
    }
}

/// What destructors are called for when a thread acknowledges an epoch change is what was retired
/// three epochs ago, and all that is kept by collectors among it, each item once, in the order in
/// which it is found; whatever destructors do in the meantime makes no difference to this.
pub proof fn law_destroyed_exactly<T, F>(
    model: Model<T, F>,
    post: Model<T, F>,
    c: usize,
    log: Seq<Payload<T, F>>,
    extended: Seq<Payload<T, F>>,
)
    requires
        model.inv(),
        model.registered(c),
        model.collectors[c].num_readers > 0,
        model.collectors[c].settled(),
        !model.collectors[c].invalid,
        model.due(c),
        model.rotate(c).reclaimed(post, c, log, extended),
    ensures
        ({
            let rotated = model.rotate(c);
            &&& extended == log + rotated.contents(model.collectors[c].next, rotated.rank(c))
            &&& post.collectors[c].previous == model.collectors[c].current
            &&& post.collectors[c].next == model.collectors[c].previous
            &&& post.collectors[c].garbage.len() == 0
        }),
{
    let rotated = model.rotate(c);
    model.lemma_rotate(c);
    model.lemma_respects_epoch_updated(c);
    rotated.lemma_drop_bag_contents(c, Bag::Garbage, rotated.rank(c));
    assert(rotated.drop_garbage(c).dropped.skip(rotated.dropped.len() as int)
        =~= rotated.contents(model.collectors[c].next, rotated.rank(c)));
}

/// A collector of the chain says that there are retired instances if and only if one of its three
/// lists contains some. So it is in every state, whatever destructors have retired.
pub proof fn law_garbage_flag<T, F>(model: Model<T, F>, c: usize)
    requires
        model.inv(),
        model.registered(c),
    ensures
        model.collectors[c].has_garbage == (model.collectors[c].previous.len() > 0
            || model.collectors[c].current.len() > 0 || model.collectors[c].next.len() > 0),
{
    assert(model.collectors.contains_key(c));
}

/// What a thread, or a destructor in it, retires is among the instances that the thread has retired
/// most recently.
pub proof fn law_retired_most_recently<T, F>(
    model: Model<T, F>,
    post: Model<T, F>,
    c: usize,
    y: usize,
)
    requires
        model.inv(),
        post.inv(),
        model.collectors.contains_key(c),
        model.acts(post, c),
        model.retirement(y) is None,
        post.retirement(y) is Some,
    ensures
        post.collectors[c].current.contains(y),
        post.retirement(y)->0.holder == c,
{
    let holder = post.retirement(y)->0.holder;
    assert(post.collectors.contains_key(holder) && post.collectors[holder].holds(y));
    assert(model.collectors.contains_key(holder));
    if model.collectors[holder].holds(y) {
        assert(model.keeps(holder, y));
    }
}

/// If a destructor fails while a thread acknowledges an epoch change, the thread keeps all that was
/// due to be reclaimed but had not been reclaimed by then.
pub proof fn law_failure_keeps<T, F>(
    rotated: Model<T, F>,
    failed: Model<T, F>,
    c: usize,
    count: nat,
    log: Seq<Payload<T, F>>,
    extended: Seq<Payload<T, F>>,
    rest: Seq<Payload<T, F>>,
    k: int,
)
    requires
        rotated.inv(),
        rotated.registered(c),
        rotated.collectors[c].settled(),
        rotated.interrupted_after(failed, c, count, log, extended, rest),
        count <= k < rotated.collectors[c].garbage.len(),
    ensures
        failed.recollect_all(c).inv(),
        failed.recollect_all(c).collectors[c].garbage.len() == 0,
        failed.recollect_all(c).collectors[c].holds(rotated.collectors[c].garbage[k]),
        failed.recollect_all(c).occupied(rotated.collectors[c].garbage[k]),
{
    let garbage = rotated.collectors[c].garbage;
    let x = garbage[k];
    let post = failed.recollect_all(c);
    rotated.lemma_drop_some(c, count);
    assert(failed.registered(c));
    assert(garbage.skip(count as int)[k - count] == x);
    assert(failed.collectors[c].garbage.contains(x));
    assert(failed.collectors[c].holds(x));
    law_recollected(failed, c);
    assert(post.collectors[c].holds(x));
    assert(post.collectors.contains_key(c)) by {
        lemma_recollect_collectors(failed, c);
    }
    assert(post.keeps(c, x));
    assert(post.occupied(x));
}

/// No collector is lost when garbage is retired again.
proof fn lemma_recollect_collectors<T, F>(model: Model<T, F>, c: usize)
    ensures
        model.collectors.contains_key(c) ==> model.recollect_all(c).collectors.contains_key(c),
    decreases model.collectors[c].garbage.len(),
{
    if model.collectors[c].garbage.len() > 0 {
        lemma_recollect_collectors(model.recollect(c), c);
    }
}

/// A thread that has terminated leaves nothing behind of what destructors retired in the course of
/// it.
pub proof fn law_terminated<T, F>(
    model: Model<T, F>,
    post: Model<T, F>,
    thread: int,
    temporary: usize,
    log: Seq<Payload<T, F>>,
    extended: Seq<Payload<T, F>>,
    x: usize,
)
    requires
        model.inv(),
        post.inv(),
        0 <= thread < model.locals.len(),
        !model.occupied(temporary),
        model.exited(post, thread, temporary, log, extended),
        post.retirement(x) is Some,
    ensures
        post.retirement(x)->0.holder != temporary,
{
    let begun = model.begin_exit(thread, temporary);
    let swept = begun.clear_chain();
    let destroyed = log + swept.dropped.skip(model.dropped.len() as int);
    let (handed, emptied) = choose|handed: Model<T, F>, emptied: Model<T, F>|
        {
            &&& handed.inv()
            &&& if begun.lock is Free && begun.all_invalid(begun.chain) {
                swept.acts(handed, temporary) && handed.dropped == model.dropped
            } else {
                handed == swept.mark()
            }
            &&& #[trigger] handed.cleared_out(emptied, temporary, destroyed, extended)
            &&& emptied.collectors[temporary].empty()
            &&& post == emptied.finish_exit(thread)
        };
    let states = choose|states: Seq<Model<T, F>>| #[trigger]
        handed.cleared_in(emptied, states, temporary, destroyed, extended);
    lemma_clear_chain_locals(begun);
    lemma_passes_locals(states, temporary, states.len() - 1);
    assert(emptied.locals[thread] == temporary);
    assert(!post.collectors.contains_key(temporary));
    assert(post.collectors.contains_key(post.retirement(x)->0.holder));
}

/// Emptying a collector over and over takes no collector away from its thread.
proof fn lemma_passes_locals<T, F>(states: Seq<Model<T, F>>, c: usize, i: int)
    requires
        Model::passes(states, c),
        0 <= i < states.len(),
    ensures
        states[i].locals == states[0].locals,
    decreases i,
{
    if i > 0 {
        lemma_passes_locals(states, c, i - 1);
        let pre = states[i - 1];
        assert(pre.clear(c).acts(states[i], c));
        lemma_drop_bags_locals(pre, c, pre.rank(c));
    }
}

/// A thread acts in its own right when it creates an instance, retires one, adds or drops a strong
/// reference, defers something, accelerates garbage collection, or gets and drops a guard besides
/// another one.
pub proof fn law_own_acts<T, F>(
    model: Model<T, F>,
    c: usize,
    x: usize,
    y: usize,
    value: T,
    payload: Payload<T, F>,
    shared: bool,
    token: nat,
    collect_garbage: bool,
)
    requires
        model.inv(),
        model.registered(c),
        !model.occupied(x),
    ensures
        model.acts(model.create(x, value, shared), c),
        model.acts(model.defer(c, x, payload), c),
        model.acts(model.accelerate(c), c),
        model.instances.contains_key(y) && model.instances[y].retirement is None ==> {
            &&& model.acts(model.retire(c, y), c)
            &&& model.acts(model.share(y), c)
            &&& model.acts(model.unshare(y, token), c)
        },
        0 < model.collectors[c].num_readers < u32::MAX ==> model.acts(
            model.new_guard(c, collect_garbage).end_guard(c, model.tokens),
            c,
        ),
{
    let current = model.collectors[c].current;
    assert(current =~= current.skip(0));
    assert(current =~= (seq![x] + current).skip(1));
    assert(current =~= (seq![y] + current).skip(1));
    assert(model.occupied(c));
    assert(model.put(x, payload).sessions() =~= model.sessions()) by {
        lemma_put_sessions(model, x, payload);
    }
    if model.instances.contains_key(y) && model.instances[y].retirement is None {
        assert(model.occupied(y));
        let refs = model.instances[y].refs;
        assert(model.share(y).instances[y].refs == refs.insert(model.tokens));
        assert(model.unshare(y, token).instances[y].refs == refs.remove(token));
    }
    if 0 < model.collectors[c].num_readers < u32::MAX {
        law_nested_guard(model, c, collect_garbage);
    }
}

/// Something that nobody refers to is no reader.
proof fn lemma_put_sessions<T, F>(model: Model<T, F>, x: usize, payload: Payload<T, F>)
    ensures
        model.put(x, payload).sessions() =~= model.sessions(),
{
    let put = model.put(x, payload);
    assert forall|d: usize| #[trigger] put.pinned(d) == model.pinned(d) by {}
    assert forall|s: nat| put.sessions().contains(s) == model.sessions().contains(s) by {
        if put.sessions().contains(s) {
            let d = choose|d: usize| #[trigger] put.pinned(d) && put.collectors[d].session == s;
            assert(model.pinned(d));
        }
        if model.sessions().contains(s) {
            let d = choose|d: usize| #[trigger] model.pinned(d) && model.collectors[d].session == s;
            assert(put.pinned(d));
        }
    }
}

/// Nothing is lost or duplicated by storing into an [`AtomicOwned`]: what it gives back is what it
/// owned, and what it owns is what it was given.
pub proof fn law_owned_exchanged<T, F>(
    model: Model<T, F>,
    before: AtomicOwned<T>,
    given: Option<Owned<T>>,
    mark: Tag,
    after: AtomicOwned<T>,
    previous: Option<Owned<T>>,
)
    requires
        model.inv(),
        before.valid(model),
        given matches Some(owned) ==> owned.valid(model),
        after.holds(given, mark),
        before.yields(previous),
    ensures
        after.valid(model),
        after.word % 4 == mark@,
        given matches Some(owned) ==> after.target() == owned.instance_ptr,
        given is None ==> after.target() == 0,
        previous matches Some(owned) ==> owned.valid(model),
{
    if given is Some {
        model.lemma_owned(given->0.instance_ptr, given->0.token@);
    }
}

/// Nothing is lost or duplicated by storing into an [`AtomicShared`]: what it gives back is what it
/// held, and what it holds is what it was given.
pub proof fn law_shared_exchanged<T, F>(
    model: Model<T, F>,
    before: AtomicShared<T>,
    given: Option<Shared<T>>,
    mark: Tag,
    after: AtomicShared<T>,
    previous: Option<Shared<T>>,
)
    requires
        model.inv(),
        before.valid(model),
        given matches Some(shared) ==> shared.valid(model),
        after.holds(given, mark),
        before.yields(previous),
    ensures
        after.valid(model),
        after.word % 4 == mark@,
        given matches Some(shared) ==> after.target() == shared.instance_ptr,
        given is None ==> after.target() == 0,
        previous matches Some(shared) ==> shared.valid(model),
{
    if given is Some {
        model.lemma_owned(given->0.instance_ptr, given->0.token@);
    }
}

/// A guard or a strong reference stays valid until it is given up, whatever other handles are
/// created, used or given up.
pub proof fn law_handles_stay<T, F>(
    pre: Model<T, F>,
    post: Model<T, F>,
    gone: Set<nat>,
    guard: Guard,
    owned: Owned<T>,
    shared: Shared<T>,
)
    requires
        pre.retains(post, gone),
    ensures
        guard.valid(pre) && !gone.contains(guard.token@) ==> guard.valid(post),
        owned.valid(pre) && !gone.contains(owned.token@) ==> {
            &&& owned.valid(post)
            &&& post.value(owned.instance_ptr) == pre.value(owned.instance_ptr)
        },
        shared.valid(pre) && !gone.contains(shared.token@) ==> {
            &&& shared.valid(post)
            &&& post.value(shared.instance_ptr) == pre.value(shared.instance_ptr)
        },
{
}

/// A step of a thread, great or small.
pub enum Step<T, F> {
    /// A thread comes into being.
    Attach,
    /// See [`Model::enlist`].
    Enlist(usize),
    /// A thread that has no collector gets one.
    Enrol(int, usize),
    /// See [`Model::enter`].
    Enter(usize),
    /// See [`Model::announce`].
    Announce(usize),
    /// See [`Model::rotate`].
    Rotate(usize),
    /// The first item of the garbage of a collector is reclaimed.
    Reclaim(usize),
    /// See [`Model::recollect`].
    Recollect(usize),
    /// See [`Model::recollect_all`].
    RecollectAll(usize),
    /// See [`Model::epoch_updated`].
    EpochUpdated(usize),
    /// See [`Model::new_guard`].
    NewGuard(usize, bool),
    /// See [`Model::leave`].
    Leave(usize, nat),
    /// See [`Model::retreat`].
    Retreat(usize),
    /// See [`Model::end_guard`].
    EndGuard(usize, nat),
    /// See [`Model::scan_lock`].
    ScanLock(usize),
    /// See [`Model::scan_next`].
    ScanNext,
    /// See [`Model::scan_advance`].
    ScanAdvance,
    /// See [`Model::scan`].
    Scan(usize),
    /// See [`Model::clear_lock`].
    ClearLock,
    /// See [`Model::clear_pass`].
    ClearPass,
    /// See [`Model::clear_commit`].
    ClearCommit,
    /// See [`Model::clear_chain`].
    ClearChain,
    /// See [`Model::unlock`].
    Unlock,
    /// See [`Model::mark`].
    Mark,
    /// See [`Model::accelerate`].
    Accelerate(usize),
    /// See [`Model::create`].
    Create(usize, T, bool),
    /// See [`Model::share`].
    Share(usize),
    /// See [`Model::unshare`].
    Unshare(usize, nat),
    /// See [`Model::retire`].
    Retire(usize, usize),
    /// See [`Model::put`].
    Put(usize, Payload<T, F>),
    /// See [`Model::defer`].
    Defer(usize, usize, Payload<T, F>),
    /// All that is to be destroyed but so much of it is taken away.
    TakeDropped(nat),
    /// See [`Model::acts`].
    Act(usize, Model<T, F>),
    /// See [`Model::clear`].
    Clear(usize),
    /// See [`Model::pass_garbage`].
    PassGarbage(int),
    /// See [`Model::begin_exit`].
    BeginExit(int, usize),
    /// See [`Model::finish_exit`].
    FinishExit(int),
    /// See [`Model::exit`].
    Exit(int, usize),
}

impl<T, F> Step<T, F> {
    /// The step takes the domain from one state to another.
    pub open spec fn leads(self, pre: Model<T, F>, post: Model<T, F>) -> bool {
        match self {
            Step::Attach => post == pre.attach(),
            Step::Enlist(c) => post == pre.enlist(c),
            Step::Enrol(thread, c) => {
                &&& 0 <= thread < pre.locals.len()
                &&& pre.locals[thread] == 0
                &&& post == pre.enrol(thread, c)
            },
            Step::Enter(c) => post == pre.enter(c),
            Step::Announce(c) => post == pre.announce(c),
            Step::Rotate(c) => post == pre.rotate(c),
            Step::Reclaim(c) => post == pre.drop_first(c, Bag::Garbage),
            Step::Recollect(c) => post == pre.recollect(c),
            Step::RecollectAll(c) => post == pre.recollect_all(c),
            Step::EpochUpdated(c) => post == pre.epoch_updated(c),
            Step::NewGuard(c, collect_garbage) => post == pre.new_guard(c, collect_garbage),
            Step::Leave(c, guard) => post == pre.leave(c, guard),
            Step::Retreat(c) => post == pre.retreat(c),
            Step::EndGuard(c, guard) => post == pre.end_guard(c, guard),
            Step::ScanLock(c) => post == pre.scan_lock(c),
            Step::ScanNext => post == pre.scan_next(),
            Step::ScanAdvance => post == pre.scan_advance(),
            Step::Scan(c) => post == pre.scan(c),
            Step::ClearLock => post == pre.clear_lock(),
            Step::ClearPass => post == pre.clear_pass(),
            Step::ClearCommit => post == pre.clear_commit(),
            Step::ClearChain => post == pre.clear_chain(),
            Step::Unlock => post == pre.unlock(),
            Step::Mark => post == pre.mark(),
            Step::Accelerate(c) => post == pre.accelerate(c),
            Step::Create(x, value, shared) => post == pre.create(x, value, shared),
            Step::Share(x) => post == pre.share(x),
            Step::Unshare(x, token) => post == pre.unshare(x, token),
            Step::Retire(c, x) => post == pre.retire(c, x),
            Step::Put(x, payload) => post == pre.put(x, payload),
            Step::Defer(c, x, payload) => post == pre.defer(c, x, payload),
            Step::TakeDropped(count) => post == (Model {
                dropped: pre.dropped.take(count as int),
                ..pre
            }),
            Step::Act(c, model) => post == model && pre.acts(model, c),
            Step::Clear(c) => post == pre.clear(c),
            Step::PassGarbage(thread) => {
                0 <= thread < pre.locals.len() && post == pre.pass_garbage(thread)
            },
            Step::BeginExit(thread, c) => {
                0 <= thread < pre.locals.len() && post == pre.begin_exit(thread, c)
            },
            Step::FinishExit(thread) => {
                0 <= thread < pre.locals.len() && post == pre.finish_exit(thread)
            },
            Step::Exit(thread, c) => {
                0 <= thread < pre.locals.len() && post == pre.exit(thread, c)
            },
        }
    }

    /// The thread is suspended, or terminates.
    pub open spec fn suspends(self, thread: int) -> bool {
        match self {
            Step::PassGarbage(other) => other == thread,
            Step::BeginExit(other, _) => other == thread,
            Step::FinishExit(other) => other == thread,
            Step::Exit(other, _) => other == thread,
            _ => false,
        }
    }
}

/// Destroying what a collector keeps takes no collector away from its thread.
proof fn lemma_drop_bag_locals<T, F>(model: Model<T, F>, c: usize, bag: Bag, bound: nat)
    ensures
        model.drop_bag(c, bag, bound).locals == model.locals,
    decreases bound, 0nat, model.collectors[c].bag(bag).len(),
{
    let list = model.collectors[c].bag(bag);
    if list.len() > 0 {
        let nested = model.collectors.contains_key(list[0]) && model.rank(list[0]) < bound;
        if nested {
            lemma_drop_bags_locals(model, list[0], model.rank(list[0]));
        }
        let emptied = if nested {
            model.drop_bags(list[0], model.rank(list[0]))
        } else {
            model
        };
        let discarded = emptied.discard(c, bag);
        if discarded.collectors[c].bag(bag).len() < list.len() {
            lemma_drop_bag_locals(discarded, c, bag, bound);
        }
    }
}

/// See [`lemma_drop_bag_locals`].
proof fn lemma_drop_bags_locals<T, F>(model: Model<T, F>, c: usize, bound: nat)
    ensures
        model.drop_bags(c, bound).locals == model.locals,
    decreases bound, 1nat, 0nat,
{
    let first = model.drop_bag(c, Bag::Previous, bound);
    let second = first.drop_bag(c, Bag::Current, bound);
    lemma_drop_bag_locals(model, c, Bag::Previous, bound);
    lemma_drop_bag_locals(first, c, Bag::Current, bound);
    lemma_drop_bag_locals(second, c, Bag::Next, bound);
}

/// See [`lemma_drop_bag_locals`].
proof fn lemma_destroy_locals<T, F>(model: Model<T, F>, list: Seq<usize>)
    ensures
        model.destroy(list).locals == model.locals,
    decreases list.len(),
{
    if list.len() > 0 {
        lemma_drop_bags_locals(model, list[0], model.rank(list[0]));
        lemma_destroy_locals(model.clear(list[0]).remove_temporary(list[0]), list.skip(1));
    }
}

/// A walk over the chain takes no collector away from its thread.
proof fn lemma_scan_run_locals<T, F>(model: Model<T, F>)
    ensures
        model.scan_run().locals == model.locals,
    decreases model.lock->Scan_0.rest.len(),
{
    let scan = model.lock->Scan_0;
    if scan.rest.len() > 0 && model.ready(scan.scanner, scan.rest[0]) {
        lemma_scan_run_locals(model.scan_next());
    }
}

/// See [`lemma_scan_run_locals`].
proof fn lemma_clear_run_locals<T, F>(model: Model<T, F>)
    ensures
        model.clear_run().locals == model.locals,
    decreases model.lock->Clear_0.rest.len(),
{
    let clear = model.lock->Clear_0;
    if clear.rest.len() > 0 && model.collectors[clear.rest[0]].invalid {
        lemma_clear_run_locals(model.clear_pass());
    }
}

/// See [`lemma_scan_run_locals`].
proof fn lemma_clear_chain_locals<T, F>(model: Model<T, F>)
    ensures
        model.clear_chain().locals == model.locals,
{
    let walked = model.clear_lock().clear_run();
    lemma_clear_run_locals(model.clear_lock());
    lemma_destroy_locals(walked.clear_unlink(), walked.lock->Clear_0.walked);
}

/// See [`lemma_drop_bag_locals`].
proof fn lemma_recollect_locals<T, F>(model: Model<T, F>, c: usize)
    ensures
        model.recollect_all(c).locals == model.locals,
    decreases model.collectors[c].garbage.len(),
{
    if model.collectors[c].garbage.len() > 0 {
        lemma_recollect_locals(model.recollect(c), c);
    }
}

/// A step of any kind leaves a thread its collector, unless it suspends the thread or is part of its
/// termination.
pub proof fn law_collector_stays<T, F>(
    step: Step<T, F>,
    pre: Model<T, F>,
    post: Model<T, F>,
    thread: int,
)
    requires
        step.leads(pre, post),
        !step.suspends(thread),
        0 <= thread < pre.locals.len(),
        pre.locals[thread] != 0,
    ensures
        thread < post.locals.len(),
        post.locals[thread] == pre.locals[thread],
{
    match step {
        Step::Reclaim(c) => {
            let x = pre.collectors[c].bag(Bag::Garbage)[0];
            lemma_drop_bags_locals(pre, x, pre.rank(x));
        },
        Step::RecollectAll(c) => {
            lemma_recollect_locals(pre, c);
        },
        Step::EpochUpdated(c) => {
            let rotated = pre.rotate(c);
            lemma_drop_bag_locals(rotated, c, Bag::Garbage, rotated.rank(c));
        },
        Step::NewGuard(c, _) => {
            let rotated = pre.enter(c).announce(c).rotate(c);
            lemma_drop_bag_locals(rotated, c, Bag::Garbage, rotated.rank(c));
        },
        Step::Scan(c) => {
            lemma_scan_run_locals(pre.scan_lock(c));
        },
        Step::EndGuard(c, guard) => {
            lemma_scan_run_locals(pre.leave(c, guard).scan_lock(c));
        },
        Step::ClearCommit => {
            lemma_destroy_locals(pre.clear_unlink(), pre.lock->Clear_0.walked);
        },
        Step::ClearChain => {
            lemma_clear_chain_locals(pre);
        },
        Step::Clear(c) => {
            lemma_drop_bags_locals(pre, c, pre.rank(c));
        },
        Step::FinishExit(other) => {
            let c = pre.locals[other];
            lemma_drop_bags_locals(pre, c, pre.rank(c));
        },
        Step::Exit(other, temporary) => {
            let begun = pre.begin_exit(other, temporary);
            lemma_clear_chain_locals(begun);
            let cleared = if begun.lock is Free && begun.all_invalid(begun.chain) {
                begun.clear_chain()
            } else {
                begun.clear_chain().mark()
            };
            let c = cleared.locals[other];
            lemma_drop_bags_locals(cleared, c, cleared.rank(c));
        },
        _ => {},
    }
}

/// Once a thread has a collector, as it has after it was prepared, a guard of the thread needs no
/// memory: whatever steps threads take, it finds the same collector until the thread is suspended or
/// terminates.
pub proof fn law_prepared<T, F>(
    states: Seq<Model<T, F>>,
    steps: Seq<Step<T, F>>,
    thread: int,
    i: int,
    j: int,
    c: usize,
)
    requires
        0 <= i <= j < states.len(),
        steps.len() == states.len(),
        forall|k: int, l: int|
            i <= k && l == k + 1 && l <= j ==> {
                &&& steps[k].leads(#[trigger] states[k], #[trigger] states[l])
                &&& !steps[k].suspends(thread)
            },
        0 <= thread < states[i].locals.len(),
        states[i].locals[thread] != 0,
    ensures
        thread < states[j].locals.len(),
        states[j].locals[thread] == states[i].locals[thread],
        states[j].current(thread, c) == states[j],
    decreases j - i,
{
    if i < j {
        law_prepared(states, steps, thread, i, j - 1, c);
        assert(steps[j - 1].leads(states[j - 1], states[j]));
        law_collector_stays(steps[j - 1], states[j - 1], states[j], thread);
    }
}

/// A thread that has a collector can get a guard without any memory, unless it has too many. See
/// [`Guard::new`]: it gets one unless a destructor fails.
pub proof fn law_prepared_guard<T, F>(domain: Domain<T, F>, thread: usize)
    requires
        domain.wf(),
        domain.rests(thread),
        domain.local(thread) != 0,
        domain@.collectors[domain.local(thread)].num_readers < u32::MAX,
    ensures
        domain.guardable(thread),
{
}

} // verus!

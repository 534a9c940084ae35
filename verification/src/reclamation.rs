//! What is reclaimed is destroyed, once, and nothing else is affected.

use crate::behaviour;
use crate::model::{Bag, CollectorModel, Model, Payload};
use crate::Tag;
use vstd::prelude::*;

verus! {

// Destruction.

/// The instances that cease to exist are destroyed once each, in the order given: what is to be
/// destroyed is extended by their bodies, and by nothing else. No instance comes into being or
/// changes.
pub open spec fn destroys<T, F>(pre: Model<T, F>, post: Model<T, F>, order: Seq<usize>) -> bool {
    &&& order.no_duplicates()
    &&& forall|x: usize| #[trigger]
        order.contains(x) == (pre.instances.contains_key(x) && !post.instances.contains_key(x))
    &&& forall|x: usize| #[trigger]
        post.instances.contains_key(x) ==> {
            &&& pre.instances.contains_key(x)
            &&& post.instances[x] == pre.instances[x]
        }
    &&& post.dropped.len() == pre.dropped.len() + order.len()
    &&& forall|i: int|
        0 <= i < pre.dropped.len() ==> #[trigger] post.dropped[i] == pre.dropped[i]
    &&& forall|i: int|
        0 <= i < order.len() ==> post.dropped[pre.dropped.len() + i]
            == pre.instances[#[trigger] order[i]].body
}

/// See [`destroys`].
pub open spec fn destroys_once<T, F>(pre: Model<T, F>, post: Model<T, F>) -> bool {
    exists|order: Seq<usize>| destroys(pre, post, order)
}

/// See [`destroys`].
proof fn lemma_destroys_none<T, F>(pre: Model<T, F>, post: Model<T, F>)
    requires
        post.instances == pre.instances,
        post.dropped == pre.dropped,
    ensures
        destroys(pre, post, Seq::empty()),
        destroys_once(pre, post),
{
    assert(destroys(pre, post, Seq::empty()));
}

/// What is destroyed in two steps, one after the other.
proof fn lemma_destroys_transitive<T, F>(
    pre: Model<T, F>,
    mid: Model<T, F>,
    post: Model<T, F>,
    first: Seq<usize>,
    second: Seq<usize>,
)
    requires
        destroys(pre, mid, first),
        destroys(mid, post, second),
    ensures
        destroys(pre, post, first + second),
        destroys_once(pre, post),
{
    let order = first + second;
    assert forall|x: usize| #[trigger] order.contains(x) == (first.contains(x) || second.contains(
        x,
    )) by {
        if first.contains(x) {
            let i = first.index_of(x);
            assert(order[i] == x);
        }
        if second.contains(x) {
            let i = second.index_of(x);
            assert(order[first.len() + i] == x);
        }
    }
    assert(order.no_duplicates()) by {
        assert forall|i: int, j: int| 0 <= i < j < order.len() implies order[i] != order[j] by {
            if i < first.len() && j >= first.len() {
                assert(first.contains(first[i]));
                assert(second.contains(second[j - first.len()]));
            }
        }
    }
    assert forall|i: int| 0 <= i < pre.dropped.len() implies #[trigger] post.dropped[i]
        == pre.dropped[i] by {
        assert(mid.dropped[i] == pre.dropped[i]);
    }
    assert forall|i: int| 0 <= i < order.len() implies post.dropped[pre.dropped.len() + i]
        == pre.instances[#[trigger] order[i]].body by {
        if i < first.len() {
            assert(mid.dropped[pre.dropped.len() + i] == pre.instances[first[i]].body);
            assert(post.dropped[pre.dropped.len() + i] == mid.dropped[pre.dropped.len() + i]);
        } else {
            let x = second[i - first.len()];
            assert(second.contains(x));
            assert(post.dropped[mid.dropped.len() + (i - first.len())] == mid.instances[x].body);
            assert(mid.instances.contains_key(x));
        }
    }
    assert(destroys(pre, post, order));
}

/// The first item of a list leaves the domain.
proof fn lemma_discard_destroys<T, F>(model: Model<T, F>, c: usize, bag: Bag) -> (order: Seq<usize>)
    ensures
        destroys(model, model.discard(c, bag), order),
        destroys_once(model, model.discard(c, bag)),
        ({
            let x = model.collectors[c].bag(bag)[0];
            order == if model.instances.contains_key(x) {
                seq![x]
            } else {
                Seq::empty()
            }
        }),
{
    let x = model.collectors[c].bag(bag)[0];
    let post = model.discard(c, bag);
    let order = if model.instances.contains_key(x) {
        seq![x]
    } else {
        Seq::empty()
    };
    if model.instances.contains_key(x) {
        assert(order[0] == x);
    }
    assert(destroys(model, post, order));
    order
}

/// See [`destroys`].
proof fn lemma_drop_bag_destroys<T, F>(model: Model<T, F>, c: usize, bag: Bag, bound: nat) -> (order:
    Seq<usize>)
    ensures
        destroys(model, model.drop_bag(c, bag, bound), order),
        destroys_once(model, model.drop_bag(c, bag, bound)),
    decreases bound, 0nat, model.collectors[c].bag(bag).len(),
{
    let list = model.collectors[c].bag(bag);
    if list.len() == 0 {
        lemma_destroys_none(model, model);
        Seq::empty()
    } else {
        let nested = model.collectors.contains_key(list[0]) && model.rank(list[0]) < bound;
        let emptied = if nested {
            model.drop_bags(list[0], model.rank(list[0]))
        } else {
            model
        };
        let first = if nested {
            lemma_drop_bags_destroys(model, list[0], model.rank(list[0]))
        } else {
            lemma_destroys_none(model, model);
            Seq::empty()
        };
        let discarded = emptied.discard(c, bag);
        let second = lemma_discard_destroys(emptied, c, bag);
        lemma_destroys_transitive(model, emptied, discarded, first, second);
        if discarded.collectors[c].bag(bag).len() < list.len() {
            let third = lemma_drop_bag_destroys(discarded, c, bag, bound);
            lemma_destroys_transitive(
                model,
                discarded,
                discarded.drop_bag(c, bag, bound),
                first + second,
                third,
            );
            first + second + third
        } else {
            first + second
        }
    }
}

/// See [`destroys`].
proof fn lemma_drop_bags_destroys<T, F>(model: Model<T, F>, c: usize, bound: nat) -> (order: Seq<
    usize,
>)
    ensures
        destroys(model, model.drop_bags(c, bound), order),
        destroys_once(model, model.drop_bags(c, bound)),
    decreases bound, 1nat, 0nat,
{
    let one = model.drop_bag(c, Bag::Previous, bound);
    let two = one.drop_bag(c, Bag::Current, bound);
    let three = two.drop_bag(c, Bag::Next, bound);
    let first = lemma_drop_bag_destroys(model, c, Bag::Previous, bound);
    let second = lemma_drop_bag_destroys(one, c, Bag::Current, bound);
    let third = lemma_drop_bag_destroys(two, c, Bag::Next, bound);
    lemma_destroys_transitive(model, one, two, first, second);
    lemma_destroys_transitive(model, two, three, first + second, third);
    first + second + third
}

/// See [`destroys`].
proof fn lemma_destroy_destroys<T, F>(model: Model<T, F>, list: Seq<usize>) -> (order: Seq<usize>)
    ensures
        destroys(model, model.destroy(list), order),
        destroys_once(model, model.destroy(list)),
    decreases list.len(),
{
    if list.len() == 0 {
        lemma_destroys_none(model, model);
        Seq::empty()
    } else {
        let cleared = model.clear(list[0]);
        let removed = cleared.remove_temporary(list[0]);
        let first = lemma_drop_bags_destroys(model, list[0], model.rank(list[0]));
        lemma_destroys_none(cleared, removed);
        lemma_destroys_transitive(model, cleared, removed, first, Seq::empty());
        let second = lemma_destroy_destroys(removed, list.skip(1));
        lemma_destroys_transitive(
            model,
            removed,
            removed.destroy(list.skip(1)),
            first + Seq::empty(),
            second,
        );
        first + Seq::empty() + second
    }
}

/// See [`destroys`].
proof fn lemma_clear_run_same<T, F>(model: Model<T, F>)
    ensures
        model.clear_run().instances == model.instances,
        model.clear_run().dropped == model.dropped,
    decreases model.lock->Clear_0.rest.len(),
{
    let clear = model.lock->Clear_0;
    if clear.rest.len() > 0 && model.collectors[clear.rest[0]].invalid {
        lemma_clear_run_same(model.clear_pass());
    }
}

/// Whatever is reclaimed, by a thread that gets a guard, by one that clears the chain, or by one that
/// clears its own collector, is destroyed: every instance that ceases to exist is destroyed once, and
/// nothing else is. No instance is affected otherwise.
pub proof fn law_destroyed_once<T, F>(model: Model<T, F>, c: usize, collect_garbage: bool)
    ensures
        destroys_once(model, model.new_guard(c, collect_garbage)),
        destroys_once(model, model.drop_first(c, Bag::Garbage)),
        destroys_once(model, model.drop_garbage(c)),
        destroys_once(model, model.clear(c)),
        destroys_once(model, model.clear_commit()),
        destroys_once(model, model.clear_chain()),
{
    let rotated = model.enter(c).announce(c).rotate(c);
    let order = lemma_drop_bag_destroys(rotated, c, Bag::Garbage, rotated.rank(c));
    lemma_destroys_none(model, model.nest(c));
    lemma_destroys_none(model, model.enter(c).announce(c));
    lemma_destroys_none(model, rotated);
    lemma_destroys_transitive(model, rotated, rotated.drop_garbage(c), Seq::empty(), order);
    let _ = lemma_drop_bag_destroys(model, c, Bag::Garbage, model.rank(c));
    let _ = lemma_drop_bags_destroys(model, c, model.rank(c));
    let x = model.collectors[c].bag(Bag::Garbage)[0];
    if model.collectors.contains_key(x) {
        let first = lemma_drop_bags_destroys(model, x, model.rank(x));
        let second = lemma_discard_destroys(model.clear(x), c, Bag::Garbage);
        lemma_destroys_transitive(
            model,
            model.clear(x),
            model.drop_first(c, Bag::Garbage),
            first,
            second,
        );
    } else {
        let _ = lemma_discard_destroys(model, c, Bag::Garbage);
    }
    lemma_commit_destroys(model);
    lemma_destroys_none(model, model);
    let walked = model.clear_lock().clear_run();
    lemma_clear_run_same(model.clear_lock());
    lemma_destroys_none(model, walked);
    lemma_destroys_none(model, walked.unlock());
    lemma_commit_destroys(walked);
    let committed = walked.clear_commit();
    let order = choose|order: Seq<usize>| destroys(walked, committed, order);
    lemma_destroys_transitive(model, walked, committed, Seq::empty(), order);
    lemma_destroys_none(committed, committed.unlock());
    lemma_destroys_transitive(
        model,
        committed,
        committed.unlock(),
        Seq::empty() + order,
        Seq::empty(),
    );
}

/// See [`law_destroyed_once`].
proof fn lemma_commit_destroys<T, F>(model: Model<T, F>)
    ensures
        destroys_once(model, model.clear_commit()),
{
    let unlinked = model.clear_unlink();
    let order = lemma_destroy_destroys(unlinked, model.lock->Clear_0.walked);
    lemma_destroys_none(model, unlinked);
    lemma_destroys_transitive(model, unlinked, model.clear_commit(), Seq::empty(), order);
}

/// Every collector of the chain has been given up by its thread.
pub open spec fn abandoned<T, F>(model: Model<T, F>) -> bool {
    forall|d: usize| #[trigger] model.registered(d) ==> model.collectors[d].invalid
}

/// What a thread that clears the chain does: if the chain is not locked, and every collector of it
/// has been given up, none of them is left, nor anything that they keep. All else stays as it is, and
/// so does everything if the chain is not cleared, except that the mark on the chain is gone.
pub proof fn law_clear_chain<T, F>(model: Model<T, F>)
    requires
        model.inv(),
    ensures
        ({
            let post = model.clear_chain();
            &&& post.epoch == model.epoch
            &&& post.locals == model.locals
            &&& post.tokens == model.tokens
            &&& model.lock is Free ==> post.lock is Free && post.tag == Tag::Neither
            &&& !(model.lock is Free) ==> post == model
            &&& if model.lock is Free && abandoned(model) {
                &&& post.chain.len() == 0
                &&& forall|d: usize| #[trigger] model.registered(d) ==> !post.occupied(d)
                &&& forall|a: usize| #[trigger]
                    model.occupied(a) && !model.registered(a) ==> post.occupied(a) == (
                    model.retirement(a) is None || post.occupied(model.retirement(a)->0.holder))
                &&& forall|x: usize| #[trigger]
                    post.instances.contains_key(x) ==> {
                        &&& model.instances.contains_key(x)
                        &&& post.instances[x] == model.instances[x]
                    }
                &&& forall|d: usize| #[trigger]
                    post.collectors.contains_key(d) ==> {
                        &&& model.collectors.contains_key(d)
                        &&& post.collectors[d] == model.collectors[d]
                    }
            } else {
                &&& post.chain == model.chain
                &&& post.collectors == model.collectors
                &&& post.instances == model.instances
                &&& post.dropped == model.dropped
            }
        }),
{
    let post = model.clear_chain();
    if model.lock is Free {
        model.lemma_cleared();
        law_destroyed_once(model, 0, false);
        assert(abandoned(model) == model.all_invalid(model.chain)) by {
            if abandoned(model) {
                assert forall|i: int| 0 <= i < model.chain.len() implies model.collectors[
                    #[trigger] model.chain[i]
                ].invalid by {
                    assert(model.registered(model.chain[i]));
                }
            }
            if model.all_invalid(model.chain) {
                assert forall|d: usize| #[trigger] model.registered(d) implies model.collectors[d].invalid by {
                    let i = model.chain.index_of(d);
                    assert(model.collectors[model.chain[i]].invalid);
                }
            }
        }
        lemma_clear_chain_words(model);
        if abandoned(model) {
            lemma_surviving_collectors(model);
            assert forall|a: usize| #[trigger]
                model.occupied(a) && !model.registered(a) implies post.occupied(a) == (
            model.retirement(a) is None || post.occupied(model.retirement(a)->0.holder)) by {
                lemma_survivor(model, a);
            }
        }
    }
}

/// Collectors that are left after the chain has been cleared are the same as before.
proof fn lemma_surviving_collectors<T, F>(model: Model<T, F>)
    requires
        model.inv(),
        model.lock is Free,
        model.all_invalid(model.chain),
    ensures
        forall|d: usize| #[trigger]
            model.clear_chain().collectors.contains_key(d) ==> {
                &&& model.collectors.contains_key(d)
                &&& model.clear_chain().collectors[d] == model.collectors[d]
            },
{
    let walked = model.clear_lock().clear_run();
    model.lemma_clear_lock();
    model.clear_lock().lemma_clear_commits();
    walked.lemma_clear_unlink();
    walked.clear_unlink().lemma_destroy_collectors(walked.chain);
}

/// What becomes of the words when the chain is cleared.
proof fn lemma_clear_chain_words<T, F>(model: Model<T, F>)
    requires
        model.inv(),
        model.lock is Free,
    ensures
        model.clear_chain().lock is Free,
        model.clear_chain().tag == Tag::Neither,
        !model.all_invalid(model.chain) ==> model.clear_chain().dropped == model.dropped,
{
    let walked = model.clear_lock().clear_run();
    model.lemma_clear_lock();
    lemma_clear_run_tag(model.clear_lock());
    lemma_clear_run_same(model.clear_lock());
    if walked.lock->Clear_0.rest.len() == 0 {
        lemma_destroy_tag(walked.clear_unlink(), walked.lock->Clear_0.walked);
    }
    lemma_clear_run_all(model.clear_lock());
    assert(model.clear_lock().all_invalid(model.chain) == model.all_invalid(model.chain));
}

/// See [`lemma_clear_chain_words`].
proof fn lemma_clear_run_all<T, F>(model: Model<T, F>)
    requires
        model.lock is Clear,
    ensures
        model.clear_run().lock->Clear_0.rest.len() == 0 ==> model.all_invalid(
            model.lock->Clear_0.rest,
        ),
    decreases model.lock->Clear_0.rest.len(),
{
    let rest = model.lock->Clear_0.rest;
    if rest.len() > 0 && model.collectors[rest[0]].invalid {
        lemma_clear_run_all(model.clear_pass());
        if model.clear_run().lock->Clear_0.rest.len() == 0 {
            assert forall|i: int| 0 <= i < rest.len() implies model.collectors[
                #[trigger] rest[i]
            ].invalid by {
                if i > 0 {
                    assert(rest.skip(1)[i - 1] == rest[i]);
                }
            }
        }
    }
}

/// See [`lemma_clear_chain_words`].
proof fn lemma_clear_run_tag<T, F>(model: Model<T, F>)
    ensures
        model.clear_run().tag == model.tag,
    decreases model.lock->Clear_0.rest.len(),
{
    let clear = model.lock->Clear_0;
    if clear.rest.len() > 0 && model.collectors[clear.rest[0]].invalid {
        lemma_clear_run_tag(model.clear_pass());
    }
}

/// See [`lemma_clear_chain_words`].
proof fn lemma_destroy_tag<T, F>(model: Model<T, F>, list: Seq<usize>)
    ensures
        model.destroy(list).tag == model.tag,
    decreases list.len(),
{
    if list.len() > 0 {
        lemma_drop_bags_tag(model, list[0], model.rank(list[0]));
        lemma_destroy_tag(model.clear(list[0]).remove_temporary(list[0]), list.skip(1));
    }
}

/// See [`lemma_clear_chain_words`].
proof fn lemma_drop_bag_tag<T, F>(model: Model<T, F>, c: usize, bag: Bag, bound: nat)
    ensures
        model.drop_bag(c, bag, bound).tag == model.tag,
    decreases bound, 0nat, model.collectors[c].bag(bag).len(),
{
    let list = model.collectors[c].bag(bag);
    if list.len() > 0 {
        let nested = model.collectors.contains_key(list[0]) && model.rank(list[0]) < bound;
        if nested {
            lemma_drop_bags_tag(model, list[0], model.rank(list[0]));
        }
        let emptied = if nested {
            model.drop_bags(list[0], model.rank(list[0]))
        } else {
            model
        };
        let discarded = emptied.discard(c, bag);
        if discarded.collectors[c].bag(bag).len() < list.len() {
            lemma_drop_bag_tag(discarded, c, bag, bound);
        }
    }
}

/// See [`lemma_clear_chain_words`].
proof fn lemma_drop_bags_tag<T, F>(model: Model<T, F>, c: usize, bound: nat)
    ensures
        model.drop_bags(c, bound).tag == model.tag,
    decreases bound, 1nat, 0nat,
{
    let first = model.drop_bag(c, Bag::Previous, bound);
    let second = first.drop_bag(c, Bag::Current, bound);
    lemma_drop_bag_tag(model, c, Bag::Previous, bound);
    lemma_drop_bag_tag(first, c, Bag::Current, bound);
    lemma_drop_bag_tag(second, c, Bag::Next, bound);
}

/// What is kept by a collector leaves the domain with it, and not without it.
proof fn lemma_survivor<T, F>(model: Model<T, F>, a: usize)
    requires
        model.inv(),
        model.lock is Free,
        model.all_invalid(model.chain),
        model.occupied(a),
        !model.registered(a),
    ensures
        model.clear_chain().occupied(a) == (model.retirement(a) is None
            || model.clear_chain().occupied(model.retirement(a)->0.holder)),
{
    let walked = model.clear_lock().clear_run();
    let unlinked = walked.clear_unlink();
    let destroyed = unlinked.destroy(walked.chain);
    let post = model.clear_chain();
    model.lemma_clear_lock();
    model.clear_lock().lemma_clear_commits();
    walked.lemma_clear_unlink();
    unlinked.lemma_destroy(walked.chain);
    assert(unlinked.occupied(a));
    assert forall|b: usize| #[trigger] post.occupied(b) == destroyed.occupied(b) by {}
    assert(unlinked.retirement(a) == model.retirement(a));
    unlinked.lemma_destroy_survivor(walked.chain, a);
}

/// What leaves the domain with a list: its first item, all that it keeps if it is a collector, and
/// then the rest of the list. A collector is emptied list by list: what it retired before the last
/// epoch change, what it has retired since, and what is closest to being reclaimed.
pub proof fn law_contents<T, F>(model: Model<T, F>, c: usize, list: Seq<usize>, bound: nat)
    requires
        model.inv(),
        model.collectors.contains_key(c),
        bound == model.rank(c),
        forall|x: usize| #[trigger] list.contains(x) ==> model.collectors[c].holds(x),
    ensures
        list.len() == 0 ==> model.contents(list, bound).len() == 0,
        list.len() > 0 && model.instances.contains_key(list[0]) ==> model.contents(list, bound)
            == seq![model.instances[list[0]].body] + model.contents(list.skip(1), bound),
        list.len() > 0 && model.collectors.contains_key(list[0]) ==> model.contents(list, bound)
            == model.contents_of(list[0]) + model.contents(list.skip(1), bound),
        ({
            let rank = model.rank(c);
            let collector = model.collectors[c];
            model.contents_of(c) == model.contents(collector.previous, rank) + model.contents(
                collector.current,
                rank,
            ) + model.contents(collector.next, rank)
        }),
{
    if list.len() > 0 {
        assert(list.contains(list[0]));
        assert(model.collectors[c].holds(list[0]));
        assert(model.keeps(c, list[0]));
        assert(model.occupied(list[0]));
    }
}

/// A list of instances is destroyed from its first item to its last one.
pub proof fn law_contents_in_order<T, F>(model: Model<T, F>, list: Seq<usize>, bound: nat)
    requires
        forall|i: int| 0 <= i < list.len() ==> model.instances.contains_key(#[trigger] list[i]),
    ensures
        model.contents(list, bound).len() == list.len(),
        forall|i: int|
            0 <= i < list.len() ==> model.contents(list, bound)[i] == model.instances[
                #[trigger] list[i]
            ].body,
    decreases list.len(),
{
    if list.len() > 0 {
        let rest = list.skip(1);
        let first: int = 0;
        assert(model.instances.contains_key(list[first]));
        assert forall|i: int| 0 <= i < rest.len() implies model.instances.contains_key(
            #[trigger] rest[i],
        ) by {
            assert(rest[i] == list[i + 1]);
        }
        law_contents_in_order(model, rest, bound);
        assert forall|i: int| 0 <= i < list.len() implies model.contents(list, bound)[i]
            == model.instances[#[trigger] list[i]].body by {
            if i > 0 {
                assert(rest[i - 1] == list[i]);
            }
        }
    }
}

/// When the chain is cleared, all that its collectors keep is destroyed, one collector after the
/// other from the head of the chain, however long the chain is.
pub proof fn law_chain_destroyed<T, F>(model: Model<T, F>, list: Seq<usize>)
    requires
        model.inv(),
    ensures
        model.lock is Free && abandoned(model) ==> model.clear_chain().dropped == model.dropped
            + model.estates(model.chain),
        list.len() == 0 ==> model.estates(list).len() == 0,
        list.len() > 0 ==> model.estates(list) == model.contents_of(list[0]) + model.estates(
            list.skip(1),
        ),
{
    if model.lock is Free && abandoned(model) {
        assert forall|i: int| 0 <= i < model.chain.len() implies model.collectors[
            #[trigger] model.chain[i]
        ].invalid by {
            assert(model.registered(model.chain[i]));
        }
        let locked = model.clear_lock();
        let walked = locked.clear_run();
        let unlinked = walked.clear_unlink();
        model.lemma_clear_lock();
        assert(locked.all_invalid(model.chain));
        locked.lemma_clear_commits();
        walked.lemma_clear_unlink();
        unlinked.lemma_destroy_contents(walked.chain);
        lemma_estates_same(model, unlinked, model.chain);
    }
}

/// What collectors keep depends on nothing but collectors and instances.
proof fn lemma_estates_same<T, F>(model: Model<T, F>, post: Model<T, F>, list: Seq<usize>)
    requires
        post.collectors == model.collectors,
        post.instances == model.instances,
        post.tokens == model.tokens,
    ensures
        post.estates(list) == model.estates(list),
    decreases list.len(),
{
    if list.len() > 0 {
        let collector = model.collectors[list[0]];
        lemma_contents_same(model, post, collector.previous, model.rank(list[0]));
        lemma_contents_same(model, post, collector.current, model.rank(list[0]));
        lemma_contents_same(model, post, collector.next, model.rank(list[0]));
        lemma_estates_same(model, post, list.skip(1));
    }
}

/// See [`lemma_estates_same`].
proof fn lemma_contents_same<T, F>(
    model: Model<T, F>,
    post: Model<T, F>,
    list: Seq<usize>,
    bound: nat,
)
    requires
        post.collectors == model.collectors,
        post.instances == model.instances,
        post.tokens == model.tokens,
    ensures
        post.contents(list, bound) == model.contents(list, bound),
    decreases bound, list.len(),
{
    if list.len() > 0 {
        let x = list[0];
        if model.collectors.contains_key(x) && model.rank(x) < bound {
            let collector = model.collectors[x];
            lemma_contents_same(model, post, collector.previous, model.rank(x));
            lemma_contents_same(model, post, collector.current, model.rank(x));
            lemma_contents_same(model, post, collector.next, model.rank(x));
        }
        lemma_contents_same(model, post, list.skip(1), bound);
    }
}

/// A thread that acknowledges an epoch change destroys what was retired three epochs ago, in the order
/// of the list that it is in; a thread that clears its collector destroys list by list.
pub proof fn law_destroyed_in_order<T, F>(model: Model<T, F>, c: usize)
    requires
        model.inv(),
        model.collectors.contains_key(c),
    ensures
        ({
            let garbage = model.collectors[c].garbage;
            &&& model.drop_garbage(c).dropped == model.dropped + model.contents(
                garbage,
                model.rank(c),
            )
            &&& garbage.len() > 0 ==> model.drop_first(c, Bag::Garbage).dropped == model.dropped
                + model.contents(seq![garbage[0]], model.rank(c))
            &&& !model.registered(c) ==> model.clear(c).dropped == model.dropped
                + model.contents_of(c)
        }),
{
    model.lemma_drop_bag_contents(c, Bag::Garbage, model.rank(c));
    if model.collectors[c].garbage.len() > 0 {
        model.lemma_drop_first_contents(c, Bag::Garbage);
    }
    if !model.registered(c) {
        model.lemma_drop_bags_contents(c, model.rank(c));
    }
}

/// Reclaiming the first item of the garbage of a collector, or all of it, takes away just that, with
/// all that is kept by collectors among it. All else stays as it is.
pub proof fn law_reclaim<T, F>(model: Model<T, F>, c: usize)
    requires
        model.inv(),
        model.collectors.contains_key(c),
    ensures
        reclaims_list(model, model.drop_garbage(c), c, model.collectors[c].garbage),
        model.drop_garbage(c).collectors[c].garbage.len() == 0,
        model.collectors[c].garbage.len() > 0 ==> reclaims_list(
            model,
            model.drop_first(c, Bag::Garbage),
            c,
            model.collectors[c].garbage.take(1),
        ) && model.drop_first(c, Bag::Garbage).collectors[c].garbage
            == model.collectors[c].garbage.skip(1),
{
    let garbage = model.collectors[c].garbage;
    let bound = model.rank(c);
    law_destroyed_once(model, c, false);
    model.lemma_drop_bag(c, Bag::Garbage, bound);
    model.lemma_drop_bag_removes(c, Bag::Garbage, bound);
    lemma_drop_bag_tag(model, c, Bag::Garbage, bound);
    assert forall|a: usize| model.occupied(a) implies #[trigger] model.drop_garbage(c).occupied(a)
        == !model.under(a, garbage) by {
        assert(model.removed(model.drop_garbage(c), a) == model.under(a, garbage));
    }
    lemma_reclaims_list(model, model.drop_garbage(c), c, garbage);
    if garbage.len() > 0 {
        let post = model.drop_first(c, Bag::Garbage);
        model.lemma_drop_first(c, Bag::Garbage);
        model.lemma_drop_first_removes(c, Bag::Garbage);
        assert(garbage.take(1) =~= seq![garbage[0]]);
        assert(garbage.contains(garbage[0]));
        assert(model.collectors[c].holds(garbage[0]));
        assert forall|x: usize| #[trigger] garbage.take(1).contains(x) implies garbage.contains(
            x,
        ) by {
            assert(x == garbage[0]);
        }
        lemma_reclaims_list(model, post, c, garbage.take(1));
    }
}

/// The items of the list have left the domain, and so has what is kept by collectors among them, and
/// nothing else.
pub open spec fn reclaims_list<T, F>(
    pre: Model<T, F>,
    post: Model<T, F>,
    c: usize,
    list: Seq<usize>,
) -> bool {
    &&& destroys_once(pre, post)
    &&& forall|x: usize| #[trigger] list.contains(x) ==> !post.occupied(x)
    &&& forall|a: usize| #[trigger]
        pre.occupied(a) && !list.contains(a) ==> post.occupied(a) == (pre.retirement(a) is None
            || post.occupied(pre.retirement(a)->0.holder))
    &&& forall|d: usize|
        d != c && #[trigger] post.collectors.contains_key(d) ==> {
            &&& pre.collectors.contains_key(d)
            &&& post.collectors[d] == pre.collectors[d]
        }
    &&& post.collectors.contains_key(c)
    &&& post.collectors[c] == (CollectorModel {
        garbage: post.collectors[c].garbage,
        ..pre.collectors[c]
    })
    &&& post.epoch == pre.epoch
    &&& post.chain == pre.chain
    &&& post.lock == pre.lock
    &&& post.locals == pre.locals
    &&& post.tokens == pre.tokens
}

/// See [`reclaims_list`].
proof fn lemma_reclaims_list<T, F>(pre: Model<T, F>, post: Model<T, F>, c: usize, list: Seq<usize>)
    requires
        pre.inv(),
        pre.collectors.contains_key(c),
        destroys_once(pre, post),
        pre.only_removes(post, c, pre.rank(c)),
        post.collectors.contains_key(c),
        post.collectors[c] == (CollectorModel {
            garbage: post.collectors[c].garbage,
            ..pre.collectors[c]
        }),
        forall|x: usize| #[trigger] list.contains(x) ==> pre.collectors[c].holds(x),
        forall|a: usize|
            pre.occupied(a) ==> #[trigger] post.occupied(a) == !pre.under(a, list),
    ensures
        reclaims_list(pre, post, c, list),
{
    pre.lemma_only_removes(post, c, pre.rank(c));
    assert forall|x: usize| #[trigger] list.contains(x) implies !post.occupied(x) by {
        assert(pre.collectors[c].holds(x));
        assert(pre.keeps(c, x));
        assert(pre.occupied(x));
        assert(pre.under(x, list));
    }
    assert forall|a: usize| #[trigger] pre.occupied(a) && !list.contains(a) implies post.occupied(
        a,
    ) == (pre.retirement(a) is None || post.occupied(pre.retirement(a)->0.holder)) by {
        if pre.retirement(a) is Some {
            let h = pre.retirement(a)->0.holder;
            assert(pre.collectors.contains_key(h) && pre.collectors[h].holds(a));
            assert(pre.keeps(h, a));
            assert(pre.occupied(h));
            if pre.under(h, list) {
                assert(pre.retirement(h) is Some) by {
                    if list.contains(h) {
                        assert(pre.collectors[c].holds(h));
                        assert(pre.keeps(c, h));
                    }
                }
                assert(pre.collectors[h].retirement == pre.retirement(h));
            }
        }
    }
}

/// The relations by which the outcome of destructors is told say what they seem to.
pub proof fn law_outcomes<T, F>(
    model: Model<T, F>,
    post: Model<T, F>,
    c: usize,
    log: Seq<Payload<T, F>>,
    extended: Seq<Payload<T, F>>,
    rest: Seq<Payload<T, F>>,
)
    ensures
        model.reclaimed(post, c, log, extended) ==> {
            &&& model.drop_garbage(c).acts(post, c)
            &&& post.dropped == model.dropped
            &&& extended == log + model.drop_garbage(c).dropped.skip(model.dropped.len() as int)
        },
        model.thwarted(post, c, log, extended, rest) ==> exists|failed: Model<T, F>, count: nat|
            model.interrupted_after(failed, c, count, log, extended, rest) && post
                == failed.recollect_all(c),
        model.foiled(post, c, log, extended, rest) ==> {
            &&& model.collectors[c].num_readers == 0
            &&& model.collectors[c].announcement != model.epoch % 4
            &&& exists|regained: Model<T, F>|
                model.enter(c).announce(c).rotate(c).thwarted(regained, c, log, extended, rest)
                    && post == regained.end_guard(c, model.tokens)
        },
        model.alike(post) == (behaviour::same_words(model, post) && post.collectors == model.collectors
            && post.instances == model.instances && post.tokens == model.tokens),
{
    if model.thwarted(post, c, log, extended, rest) {
        let failed = choose|failed: Model<T, F>| #[trigger]
            model.interrupted(failed, c, log, extended, rest) && post == failed.recollect_all(c);
        assert(model.interrupted(failed, c, log, extended, rest));
        let count = choose|count: nat| #[trigger]
            model.interrupted_after(failed, c, count, log, extended, rest);
        assert(model.interrupted_after(failed, c, count, log, extended, rest));
    }
}

// Threads.

/// The collector of a thread that gets one is in front of the chain; it keeps nothing, its thread does
/// not read, and it is due to scan the chain as soon as there is reason to.
pub proof fn law_enrol<T, F>(model: Model<T, F>, thread: int, c: usize)
    requires
        0 <= thread < model.locals.len(),
        !model.occupied(c),
    ensures
        ({
            let post = model.enlist(c);
            let collector = post.collectors[c];
            &&& post.collectors.contains_key(c)
            &&& post.chain == seq![c] + model.chain
            &&& collector.announcement == 0
            &&& collector.inactive
            &&& !collector.invalid
            &&& collector.next_epoch_update == 0
            &&& !collector.has_garbage
            &&& collector.num_readers == 0
            &&& collector.previous.len() == 0
            &&& collector.current.len() == 0
            &&& collector.next.len() == 0
            &&& collector.garbage.len() == 0
            &&& collector.pending is None
            &&& collector.retirement is None
            &&& collector.guards == Set::<nat>::empty()
            &&& forall|d: usize|
                d != c ==> {
                    &&& #[trigger] post.collectors.contains_key(d)
                        == model.collectors.contains_key(d)
                    &&& post.collectors[d] == model.collectors[d]
                }
            &&& post == (Model { chain: post.chain, collectors: post.collectors, ..model })
        }),
        ({
            let post = model.current(thread, c);
            &&& model.locals[thread] != 0 ==> post == model
            &&& model.locals[thread] == 0 ==> {
                &&& post.locals.len() == model.locals.len()
                &&& post.locals[thread] == c
                &&& forall|i: int|
                    0 <= i < model.locals.len() && i != thread ==> #[trigger] post.locals[i]
                        == model.locals[i]
                &&& post == (Model { locals: post.locals, ..model.enlist(c) })
            }
        }),
        ({
            let post = model.attach();
            &&& post.locals.len() == model.locals.len() + 1
            &&& post.locals[model.locals.len() as int] == 0
            &&& forall|i: int|
                0 <= i < model.locals.len() ==> #[trigger] post.locals[i] == model.locals[i]
            &&& post == (Model { locals: post.locals, ..model })
        }),
{
}

/// A thread without guards that is suspended gives up its collector if it keeps anything; the
/// collector stays in the chain, which is marked, and keeps all that it kept. Otherwise nothing
/// happens.
pub proof fn law_suspend_exactly<T, F>(model: Model<T, F>, thread: int)
    requires
        model.inv(),
        model.at_rest(thread),
    ensures
        ({
            let c = model.locals[thread];
            let collector = model.collectors[c];
            let post = model.pass_garbage(thread);
            if c != 0 && collector.num_readers == 0 && (collector.previous.len() > 0
                || collector.current.len() > 0 || collector.next.len() > 0) {
                &&& post.locals == model.locals.update(thread, 0)
                &&& post.tag == Tag::Second || post.tag == Tag::Both
                &&& (post.tag == Tag::Both) == (model.tag == Tag::First || model.tag == Tag::Both)
                &&& post.collectors[c] == (CollectorModel { invalid: true, ..collector })
                &&& forall|d: usize|
                    d != c ==> {
                        &&& #[trigger] post.collectors.contains_key(d)
                            == model.collectors.contains_key(d)
                        &&& post.collectors[d] == model.collectors[d]
                    }
                &&& post == (Model {
                    locals: post.locals,
                    tag: post.tag,
                    collectors: post.collectors,
                    ..model
                })
            } else {
                post == model
            }
        }),
{
    let c = model.locals[thread];
    if c != 0 {
        assert(model.registered(c));
        assert(model.collectors.contains_key(c));
        assert(model.collectors[c].local_ok());
    }
}

/// A terminating thread gives up its collector, which stays in the chain with all that it keeps, and
/// gets one outside the chain that keeps nothing.
pub proof fn law_begin_exit<T, F>(model: Model<T, F>, thread: int, temporary: usize)
    requires
        model.inv(),
        0 <= thread < model.locals.len(),
        !model.occupied(temporary),
    ensures
        ({
            let c = model.locals[thread];
            let post = model.begin_exit(thread, temporary);
            let collector = post.collectors[temporary];
            &&& post.collectors.contains_key(temporary)
            &&& !post.registered(temporary)
            &&& collector.previous.len() + collector.current.len() + collector.next.len()
                + collector.garbage.len() == 0
            &&& collector.inactive && !collector.invalid && collector.num_readers == 0
            &&& collector.pending is None && collector.retirement is None
            &&& c != 0 ==> post.collectors[c] == (CollectorModel {
                invalid: true,
                ..model.collectors[c]
            })
            &&& forall|d: usize|
                d != c && d != temporary ==> {
                    &&& #[trigger] post.collectors.contains_key(d)
                        == model.collectors.contains_key(d)
                    &&& post.collectors[d] == model.collectors[d]
                }
            &&& post.locals == model.locals.update(thread, temporary)
            &&& post == (Model { locals: post.locals, collectors: post.collectors, ..model })
        }),
{
    let c = model.locals[thread];
    let post = model.begin_exit(thread, temporary);
    if post.registered(temporary) {
        assert(model.registered(temporary));
    }
    assert(post.locals =~= model.locals.update(thread, temporary));
    if c != 0 {
        assert(model.locals[thread] == c);
        assert(model.collectors.contains_key(c));
    } else {
        assert(!model.occupied(0));
    }
}

/// The temporary collector of a terminating thread leaves the domain, and with it what it keeps; the
/// thread has none afterwards.
pub proof fn law_finish_exit<T, F>(model: Model<T, F>, thread: int)
    requires
        model.inv(),
        0 <= thread < model.locals.len(),
        model.locals[thread] != 0,
        !model.registered(model.locals[thread]),
    ensures
        ({
            let c = model.locals[thread];
            let post = model.finish_exit(thread);
            &&& !post.occupied(c)
            &&& forall|x: usize| #[trigger] model.collectors[c].holds(x) ==> !post.occupied(x)
            &&& forall|a: usize| #[trigger]
                model.occupied(a) && a != c && !model.collectors[c].holds(a) ==> post.occupied(a)
            &&& destroys_once(model, post)
            &&& post.locals == model.locals.update(thread, 0)
            &&& post.epoch == model.epoch
            &&& post.chain == model.chain
            &&& post.lock == model.lock
            &&& post.tag == model.tag
            &&& forall|d: usize|
                d != c ==> {
                    &&& #[trigger] post.collectors.contains_key(d)
                        == model.collectors.contains_key(d)
                    &&& model.collectors.contains_key(d) ==> post.collectors[d]
                        == model.collectors[d]
                }
        }),
{
    let c = model.locals[thread];
    let cleared = model.clear(c);
    let collector = model.collectors[c];
    let post = model.finish_exit(thread);
    assert(model.collectors.contains_key(c));
    assert(collector.local_ok());
    assert(model.occupied(c));
    model.lemma_drop_bags(c, model.rank(c));
    model.lemma_drop_bags_removes(c, model.rank(c));
    law_destroyed_once(model, c, false);
    lemma_destroys_none(cleared, post);
    let order = choose|order: Seq<usize>| destroys(model, cleared, order);
    lemma_destroys_transitive(model, cleared, post, order, Seq::empty());
    assert forall|a: usize| #[trigger] model.occupied(a) && a != c && !collector.holds(
        a,
    ) implies post.occupied(a) by {
        lemma_temporary_under(model, c, a, collector.previous);
        lemma_temporary_under(model, c, a, collector.current);
        lemma_temporary_under(model, c, a, collector.next);
        assert(!model.removed(cleared, a));
        assert(cleared.occupied(a));
    }
    assert forall|x: usize| #[trigger] collector.holds(x) implies !post.occupied(x) by {
        assert(model.keeps(c, x));
        assert(model.occupied(x));
        assert(model.under(x, collector.previous) || model.under(x, collector.current)
            || model.under(x, collector.next));
        assert(model.removed(cleared, x));
    }
    assert forall|d: usize| d != c implies {
        &&& #[trigger] post.collectors.contains_key(d) == model.collectors.contains_key(d)
        &&& model.collectors.contains_key(d) ==> post.collectors[d] == model.collectors[d]
    } by {
        if model.collectors.contains_key(d) {
            assert(model.occupied(d));
            if collector.holds(d) {
                assert(model.keeps(c, d));
                assert(model.instances.contains_key(d));
            }
            assert(post.occupied(d));
            assert(!model.instances.contains_key(d));
            assert(!post.instances.contains_key(d)) by {
                if post.instances.contains_key(d) {
                    assert(model.instances.contains_key(d));
                }
            }
        }
    }
}

/// A temporary collector keeps instances, and no collectors.
proof fn lemma_temporary_under<T, F>(model: Model<T, F>, c: usize, a: usize, list: Seq<usize>)
    requires
        model.inv(),
        model.collectors.contains_key(c),
        !model.registered(c),
        model.collectors[c].retirement is None,
        forall|x: usize| #[trigger] list.contains(x) ==> model.collectors[c].holds(x),
    ensures
        model.under(a, list) ==> model.collectors[c].holds(a),
    decreases model.tokens - model.retirement(a)->0.serial,
{
    if model.under(a, list) && !list.contains(a) {
        let h = model.retirement(a)->0.holder;
        lemma_temporary_under(model, c, h, list);
        assert(model.keeps(c, h));
        assert(model.retirement(h) is Some);
        assert(model.instances.contains_key(h));
        assert(model.occupied(h));
    }
}

/// A thread terminates: it has no collector afterwards. If the chain was not locked, and every
/// other collector of it had been given up, the chain is cleared with all that its collectors kept, and
/// all of that is destroyed, each instance once. Otherwise the collector of the thread stays in the
/// chain, given up and with all that it keeps, and the chain is marked.
#[verifier::spinoff_prover]
pub proof fn law_exit<T, F>(model: Model<T, F>, thread: int, temporary: usize)
    requires
        model.inv(),
        model.at_rest(thread),
        model.locals[thread] != 0 ==> {
            &&& model.collectors[model.locals[thread]].garbage.len() == 0
            &&& !model.scanning(model.locals[thread])
        },
        !model.occupied(temporary),
        temporary != 0,
        temporary % 4 == 0,
    ensures
        ({
            let c = model.locals[thread];
            let post = model.exit(thread, temporary);
            let last = model.lock is Free && forall|d: usize| #[trigger]
                model.registered(d) && d != c ==> model.collectors[d].invalid;
            &&& post.locals == model.locals.update(thread, 0)
            &&& !post.occupied(temporary)
            &&& post.epoch == model.epoch
            &&& destroys_once(model, post)
            &&& if last {
                &&& post.chain.len() == 0
                &&& post.tag == Tag::Neither
                &&& forall|d: usize| #[trigger] model.registered(d) ==> !post.occupied(d)
                &&& post.dropped == model.dropped + model.estates(model.chain)
                &&& forall|a: usize| #[trigger]
                    model.occupied(a) && !model.registered(a) ==> post.occupied(a) == (
                    model.retirement(a) is None || post.occupied(model.retirement(a)->0.holder))
                &&& forall|d: usize| #[trigger]
                    post.collectors.contains_key(d) ==> {
                        &&& model.collectors.contains_key(d)
                        &&& post.collectors[d] == model.collectors[d]
                    }
            } else {
                &&& post.chain == model.chain
                &&& post.tag == Tag::Second || post.tag == Tag::Both
                &&& post.instances == model.instances
                &&& post.dropped == model.dropped
                &&& c != 0 ==> post.collectors[c] == (CollectorModel {
                    invalid: true,
                    ..model.collectors[c]
                })
                &&& forall|d: usize|
                    d != c && d != temporary ==> {
                        &&& #[trigger] post.collectors.contains_key(d)
                            == model.collectors.contains_key(d)
                        &&& model.collectors.contains_key(d) ==> post.collectors[d]
                            == model.collectors[d]
                    }
            }
        }),
{
    let c = model.locals[thread];
    let begun = model.begin_exit(thread, temporary);
    let swept = begun.clear_chain();
    let post = model.exit(thread, temporary);
    let last = model.lock is Free && forall|d: usize| #[trigger]
        model.registered(d) && d != c ==> model.collectors[d].invalid;
    law_begin_exit(model, thread, temporary);
    assert(begun.inv()) by {
        lemma_begin_exit(model, thread, temporary);
    }
    assert forall|d: usize| #[trigger] begun.registered(d) == model.registered(d) by {}
    if c != 0 {
        assert(model.registered(c));
    }
    assert((begun.lock is Free && abandoned(begun)) == last) by {
        if last {
            assert forall|d: usize| #[trigger] begun.registered(d) implies begun.collectors[d].invalid by {
                assert(model.registered(d));
                assert(model.collectors.contains_key(d));
                assert(model.occupied(d));
                assert(!model.occupied(0));
                assert(begun.collectors.contains_key(d) == model.collectors.contains_key(d));
            }
        }
        if begun.lock is Free && abandoned(begun) {
            assert forall|d: usize| #[trigger] model.registered(d) && d != c implies model.collectors[d].invalid by {
                assert(begun.registered(d));
                assert(model.collectors.contains_key(d));
                assert(model.occupied(d));
                assert(begun.collectors.contains_key(d) == model.collectors.contains_key(d));
            }
        }
    }
    assert((begun.lock is Free && begun.all_invalid(begun.chain)) == last) by {
        if last {
            assert forall|i: int| 0 <= i < begun.chain.len() implies begun.collectors[
                #[trigger] begun.chain[i]
            ].invalid by {
                assert(begun.registered(begun.chain[i]));
            }
        }
        if begun.all_invalid(begun.chain) {
            assert forall|d: usize| #[trigger] begun.registered(d) implies begun.collectors[d].invalid by {
                let i = begun.chain.index_of(d);
                assert(begun.collectors[begun.chain[i]].invalid);
            }
        }
    }
    law_clear_chain(begun);
    law_chain_destroyed(begun, begun.chain);
    begun.lemma_clear_chain();
    begun.lemma_swept(temporary);
    let marked = if last {
        swept
    } else {
        swept.mark()
    };
    swept.lemma_mark();
    behaviour::law_mark(swept, temporary);
    assert(marked.collectors[temporary].empty());
    marked.lemma_clear_empty(temporary);
    assert(post == marked.set_local(thread, 0).remove_temporary(temporary));
    assert(post.locals =~= model.locals.update(thread, 0));
    law_destroyed_once(begun, temporary, false);
    let order = choose|order: Seq<usize>| destroys(begun, swept, order);
    lemma_destroys_none(model, begun);
    lemma_destroys_transitive(model, begun, swept, Seq::empty(), order);
    lemma_destroys_none(swept, post);
    lemma_destroys_transitive(model, swept, post, Seq::empty() + order, Seq::empty());
    assert(!post.occupied(temporary)) by {
        if swept.instances.contains_key(temporary) {
            assert(begun.instances.contains_key(temporary));
        }
    }
    if last {
        assert forall|d: usize| #[trigger] model.registered(d) implies !post.occupied(d) by {
            assert(begun.registered(d));
            assert(!swept.occupied(d));
        }
        lemma_estates_begun(model, begun, c, temporary, model.chain);
        assert forall|a: usize| a != temporary implies #[trigger] post.occupied(a)
            == swept.occupied(a) by {}
        assert forall|a: usize| #[trigger]
            model.occupied(a) && !model.registered(a) implies post.occupied(a) == (
        model.retirement(a) is None || post.occupied(model.retirement(a)->0.holder)) by {
            assert(a != temporary);
            assert(begun.occupied(a) && !begun.registered(a)) by {
                if model.collectors.contains_key(a) {
                    assert(begun.collectors.contains_key(a) == model.collectors.contains_key(a));
                }
            }
            assert(begun.retirement(a) == model.retirement(a)) by {
                if model.collectors.contains_key(a) {
                    assert(begun.collectors.contains_key(a) == model.collectors.contains_key(a));
                } else {
                    assert(!begun.collectors.contains_key(a)) by {
                        if a == c {
                            assert(!model.occupied(0));
                        }
                    }
                }
            }
            if model.retirement(a) is Some {
                let h = model.retirement(a)->0.holder;
                assert(model.collectors.contains_key(h));
                assert(model.occupied(h));
            }
        }
        assert forall|d: usize| #[trigger] post.collectors.contains_key(d) implies {
            &&& model.collectors.contains_key(d)
            &&& post.collectors[d] == model.collectors[d]
        } by {
            assert(swept.collectors.contains_key(d));
            assert(swept.occupied(d));
            assert(d != c) by {
                if d == c && c != 0 {
                    assert(begun.registered(c));
                }
                assert(!begun.occupied(0));
            }
            assert(begun.collectors.contains_key(d) == model.collectors.contains_key(d));
        }
    }
}

/// See [`law_begin_exit`].
proof fn lemma_begin_exit<T, F>(model: Model<T, F>, thread: int, temporary: usize)
    requires
        model.inv(),
        model.at_rest(thread),
        model.locals[thread] != 0 ==> {
            &&& model.collectors[model.locals[thread]].garbage.len() == 0
            &&& !model.scanning(model.locals[thread])
        },
        !model.occupied(temporary),
        temporary != 0,
        temporary % 4 == 0,
    ensures
        model.begin_exit(thread, temporary).inv(),
{
    let c = model.locals[thread];
    let given_up = if c != 0 {
        model.set_local(thread, 0).invalidate(c)
    } else {
        model
    };
    if c != 0 {
        model.lemma_honours_given_up(thread);
    }
    assert(!given_up.occupied(temporary));
    given_up.lemma_add_temporary(temporary);
    let added = given_up.add_temporary(temporary);
    if added.locals.contains(temporary) {
        let i = added.locals.index_of(temporary);
        assert(given_up.locals[i] == temporary);
        assert(given_up.occupied(temporary));
    }
    added.lemma_set_local(thread, temporary);
}

/// All collectors but two are the same as before.
pub open spec fn same_collectors_but<T, F>(
    pre: Model<T, F>,
    post: Model<T, F>,
    c: usize,
    temporary: usize,
) -> bool {
    forall|d: usize|
        d != c && d != temporary ==> {
            &&& #[trigger] post.collectors.contains_key(d) == pre.collectors.contains_key(d)
            &&& post.collectors[d] == pre.collectors[d]
        }
}

/// What collectors keep is not affected when one of them is given up, and another one comes into
/// being.
proof fn lemma_estates_begun<T, F>(
    model: Model<T, F>,
    begun: Model<T, F>,
    c: usize,
    temporary: usize,
    list: Seq<usize>,
)
    requires
        model.inv(),
        begun.inv(),
        !model.occupied(temporary),
        begun.instances == model.instances,
        begun.tokens == model.tokens,
        c != 0 ==> begun.collectors[c] == (CollectorModel {
            invalid: true,
            ..model.collectors[c]
        }),
        c != 0 ==> model.collectors.contains_key(c),
        same_collectors_but(model, begun, c, temporary),
        begun.collectors.contains_key(c) == model.collectors.contains_key(c),
        forall|i: int| 0 <= i < list.len() ==> #[trigger] model.registered(list[i]),
    ensures
        begun.estates(list) == model.estates(list),
    decreases list.len(),
{
    if list.len() > 0 {
        let first: int = 0;
        let d = list[0];
        assert(model.registered(list[first]));
        assert(model.collectors.contains_key(d));
        assert(model.occupied(d));
        assert(!model.occupied(0));
        let collector = model.collectors[d];
        assert(begun.collectors.contains_key(d) == model.collectors.contains_key(d));
        assert(begun.rank(d) == model.rank(d));
        lemma_kept_occupied(model, d);
        lemma_contents_begun(model, begun, c, temporary, collector.previous, model.rank(d));
        lemma_contents_begun(model, begun, c, temporary, collector.current, model.rank(d));
        lemma_contents_begun(model, begun, c, temporary, collector.next, model.rank(d));
        assert forall|i: int| 0 <= i < list.skip(1).len() implies #[trigger] model.registered(
            list.skip(1)[i],
        ) by {
            assert(model.registered(list[i + 1]));
        }
        lemma_estates_begun(model, begun, c, temporary, list.skip(1));
    }
}

/// See [`lemma_estates_begun`].
proof fn lemma_contents_begun<T, F>(
    model: Model<T, F>,
    begun: Model<T, F>,
    c: usize,
    temporary: usize,
    list: Seq<usize>,
    bound: nat,
)
    requires
        model.inv(),
        !model.occupied(temporary),
        begun.instances == model.instances,
        begun.tokens == model.tokens,
        c != 0 ==> begun.collectors[c] == (CollectorModel {
            invalid: true,
            ..model.collectors[c]
        }),
        same_collectors_but(model, begun, c, temporary),
        begun.collectors.contains_key(c) == model.collectors.contains_key(c),
        forall|x: usize| #[trigger] list.contains(x) ==> model.occupied(x),
    ensures
        begun.contents(list, bound) == model.contents(list, bound),
    decreases bound, list.len(),
{
    if list.len() > 0 {
        let x = list[0];
        assert(list.contains(x));
        assert(begun.collectors.contains_key(x) == model.collectors.contains_key(x));
        if model.collectors.contains_key(x) {
            assert(model.occupied(x));
            let collector = model.collectors[x];
            assert(begun.rank(x) == model.rank(x));
            lemma_kept_occupied(model, x);
            if model.rank(x) < bound {
                lemma_contents_begun(model, begun, c, temporary, collector.previous, model.rank(x));
                lemma_contents_begun(model, begun, c, temporary, collector.current, model.rank(x));
                lemma_contents_begun(model, begun, c, temporary, collector.next, model.rank(x));
            }
        }
        assert forall|y: usize| #[trigger] list.skip(1).contains(y) implies model.occupied(y) by {
            let i = list.skip(1).index_of(y);
            assert(list[i + 1] == y);
            assert(list.contains(y));
        }
        lemma_contents_begun(model, begun, c, temporary, list.skip(1), bound);
    }
}

/// What a collector keeps exists.
proof fn lemma_kept_occupied<T, F>(model: Model<T, F>, c: usize)
    requires
        model.inv(),
        model.collectors.contains_key(c),
    ensures
        forall|x: usize| #[trigger] model.collectors[c].previous.contains(x) ==> model.occupied(x),
        forall|x: usize| #[trigger] model.collectors[c].current.contains(x) ==> model.occupied(x),
        forall|x: usize| #[trigger] model.collectors[c].next.contains(x) ==> model.occupied(x),
{
    assert forall|x: usize| #[trigger] model.collectors[c].holds(x) implies model.occupied(x) by {
        assert(model.keeps(c, x));
    }
    assert forall|x: usize| #[trigger] model.collectors[c].previous.contains(
        x,
    ) implies model.occupied(x) by {
        assert(model.collectors[c].holds(x));
    }
    assert forall|x: usize| #[trigger] model.collectors[c].current.contains(
        x,
    ) implies model.occupied(x) by {
        assert(model.collectors[c].holds(x));
    }
    assert forall|x: usize| #[trigger] model.collectors[c].next.contains(
        x,
    ) implies model.occupied(x) by {
        assert(model.collectors[c].holds(x));
    }
}

// Destructors.

/// What a thread, or a destructor in it, does in its own right: whatever had been retired stays as it
/// is, no instance is lost, and all that differs of the collectors is that more may have been retired
/// into that of the thread.
pub proof fn law_acts<T, F>(model: Model<T, F>, post: Model<T, F>, c: usize)
    requires
        model.acts(post, c),
    ensures
        post.epoch == model.epoch,
        post.chain == model.chain,
        post.lock == model.lock,
        post.locals == model.locals,
        post.tag == model.tag || post.tag == model.mark().tag,
        ({
            let before = model.collectors[c];
            let after = post.collectors[c];
            &&& after.previous == before.previous
            &&& after.next == before.next
            &&& after.garbage == before.garbage
            &&& after.num_readers == before.num_readers
            &&& after.guards == before.guards
            &&& after.announcement == before.announcement
            &&& after.inactive == before.inactive
            &&& after.invalid == before.invalid
            &&& before.current.is_suffix_of(after.current)
            &&& after.has_garbage == (before.has_garbage || after.current.len()
                > before.current.len())
            &&& after.next_epoch_update <= before.next_epoch_update
            &&& after.current.len() == before.current.len() ==> after.next_epoch_update == 0
                || after.next_epoch_update == before.next_epoch_update
            &&& before.next_epoch_update <= 63 && after.next_epoch_update > 0
                ==> after.next_epoch_update + (after.current.len() - before.current.len())
                == before.next_epoch_update
            &&& post.tag != model.tag ==> after.next_epoch_update == 0
        }),
        forall|d: usize| d != c ==> #[trigger] post.collectors[d] == model.collectors[d],
        forall|x: usize| #[trigger]
            model.instances.contains_key(x) ==> {
                &&& post.instances.contains_key(x)
                &&& post.instances[x].body == model.instances[x].body
                &&& model.instances[x].retirement is Some ==> post.instances[x]
                    == model.instances[x]
            },
{
}

/// A thread that gets a guard destroys what it reclaims: exactly that is added to what has been
/// destroyed, and besides that it is as if nothing but reclamation had happened before destructors did
/// what they do. If there is no new epoch, if the thread has a guard, or if it is not to reclaim
/// anything, nothing is destroyed.
pub proof fn law_opened<T, F>(
    model: Model<T, F>,
    post: Model<T, F>,
    c: usize,
    collect_garbage: bool,
    log: Seq<Payload<T, F>>,
    extended: Seq<Payload<T, F>>,
)
    requires
        model.opened(post, c, collect_garbage, log, extended),
    ensures
        ({
            let guarded = model.new_guard(c, collect_garbage);
            if collect_garbage && model.collectors[c].num_readers == 0
                && model.collectors[c].announcement != model.epoch % 4 {
                &&& guarded.acts(post, c)
                &&& post.dropped == model.dropped
                &&& extended == log + guarded.dropped.skip(model.dropped.len() as int)
            } else {
                &&& post == guarded
                &&& extended == log
            }
        }),
        model.reclaims(c, collect_garbage) == (collect_garbage && model.collectors[c].num_readers
            == 0 && model.collectors[c].announcement != model.epoch % 4),
{
}

/// If a destructor fails, some of what was due has been reclaimed, and destroyed up to where it failed;
/// the rest is still due.
pub proof fn law_interrupted<T, F>(
    rotated: Model<T, F>,
    failed: Model<T, F>,
    c: usize,
    count: nat,
    log: Seq<Payload<T, F>>,
    extended: Seq<Payload<T, F>>,
    rest: Seq<Payload<T, F>>,
)
    requires
        rotated.inv(),
        rotated.collectors.contains_key(c),
        rotated.interrupted_after(failed, c, count, log, extended, rest),
    ensures
        ({
            let garbage = rotated.collectors[c].garbage;
            let reclaimed = rotated.drop_some(c, count);
            &&& 0 < count <= garbage.len()
            &&& destroys_once(rotated, reclaimed)
            &&& forall|k: int| 0 <= k < count ==> !reclaimed.occupied(#[trigger] garbage[k])
            &&& reclaimed.collectors[c].garbage == garbage.skip(count as int)
            &&& reclaimed.acts(failed, c)
            &&& failed.collectors[c].garbage == garbage.skip(count as int)
            &&& extended + rest == log + reclaimed.dropped.skip(rotated.dropped.len() as int)
            &&& extended.len() > log.len()
            &&& failed.dropped == rotated.dropped
        }),
{
    rotated.lemma_drop_some(c, count);
    rotated.lemma_drop_some(c, (count - 1) as nat);
    lemma_drop_some_destroys(rotated, c, count);
    lemma_drop_some_destroys(rotated, c, (count - 1) as nat);
    assert forall|k: int| 0 <= k < count implies !rotated.drop_some(c, count).occupied(
        #[trigger] rotated.collectors[c].garbage[k],
    ) by {
        lemma_drop_some_gone(rotated, c, count, k);
    }
}

/// See [`law_interrupted`].
proof fn lemma_drop_some_destroys<T, F>(model: Model<T, F>, c: usize, count: nat)
    ensures
        destroys_once(model, model.drop_some(c, count)),
    decreases count,
{
    if count == 0 {
        lemma_destroys_none(model, model);
    } else {
        let before = model.drop_some(c, (count - 1) as nat);
        lemma_drop_some_destroys(model, c, (count - 1) as nat);
        law_destroyed_once(before, c, false);
        let first = choose|order: Seq<usize>| destroys(model, before, order);
        let second = choose|order: Seq<usize>|
            destroys(before, before.drop_first(c, Bag::Garbage), order);
        lemma_destroys_transitive(
            model,
            before,
            before.drop_first(c, Bag::Garbage),
            first,
            second,
        );
    }
}

/// See [`law_interrupted`].
proof fn lemma_drop_some_gone<T, F>(model: Model<T, F>, c: usize, count: nat, k: int)
    requires
        model.inv(),
        model.collectors.contains_key(c),
        0 <= k < count <= model.collectors[c].garbage.len(),
    ensures
        !model.drop_some(c, count).occupied(model.collectors[c].garbage[k]),
    decreases count,
{
    let garbage = model.collectors[c].garbage;
    let x = garbage[k];
    let before = model.drop_some(c, (count - 1) as nat);
    model.lemma_drop_some(c, (count - 1) as nat);
    before.lemma_drop_first(c, Bag::Garbage);
    if k < count - 1 {
        lemma_drop_some_gone(model, c, (count - 1) as nat, k);
    } else {
        let list = before.collectors[c].garbage;
        assert(list[0] == x);
        before.lemma_drop_first_removes(c, Bag::Garbage);
        assert(list.contains(x));
        assert(before.collectors[c].holds(x));
        assert(before.keeps(c, x));
        assert(before.occupied(x));
        let gone = seq![list[0]];
        assert(gone[0] == x);
        assert(gone.contains(x));
        assert(before.under(x, gone));
    }
}

/// In every pass over the collector of a terminating thread, all that it keeps is destroyed, and the
/// passes go on for as long as it keeps something.
pub proof fn law_passes<T, F>(states: Seq<Model<T, F>>, c: usize, i: int)
    requires
        Model::passes(states, c),
        0 <= i,
        i + 1 < states.len(),
        states[i].inv(),
        states[i].collectors.contains_key(c),
        !states[i].registered(c),
    ensures
        states[i].collectors[c].previous.len() + states[i].collectors[c].current.len()
            + states[i].collectors[c].next.len() + states[i].collectors[c].garbage.len() > 0,
        states[i].clear(c).acts(states[i + 1], c),
        destroys_once(states[i], states[i].clear(c)),
        forall|x: usize|
            (#[trigger] states[i].collectors[c].previous.contains(x)
                || states[i].collectors[c].current.contains(x)
                || states[i].collectors[c].next.contains(x)) ==> !states[i].clear(c).occupied(x),
        states[i].estate_of(c) == states[i].clear(c).dropped.skip(states[i].dropped.len() as int),
        Model::estates_of(states.take(i + 2), c) == Model::estates_of(states.take(i + 1), c)
            + states[i].estate_of(c),
{
    let model = states[i];
    let collector = model.collectors[c];
    let j = i + 1;
    assert(model.clear(c).acts(states[j], c));
    law_destroyed_once(model, c, false);
    model.lemma_drop_bags_removes(c, model.rank(c));
    assert forall|x: usize|
        (#[trigger] collector.previous.contains(x) || collector.current.contains(x)
            || collector.next.contains(x)) implies !model.clear(c).occupied(x) by {
        assert(collector.holds(x));
        assert(model.keeps(c, x));
        assert(model.occupied(x));
        assert(model.under(x, collector.previous) || model.under(x, collector.current)
            || model.under(x, collector.next));
        assert(model.removed(model.clear(c), x));
    }
    let more = states.take(i + 2);
    assert(more.drop_last() =~= states.take(i + 1));
    assert(more[more.len() - 2] == states[i]);
}

/// A thread has terminated, whatever destructors have done: it has no collector, and what the
/// collectors of the chain kept has been destroyed if, and only if, the thread was the last one.
pub proof fn law_exited<T, F>(
    model: Model<T, F>,
    post: Model<T, F>,
    thread: int,
    temporary: usize,
    log: Seq<Payload<T, F>>,
    extended: Seq<Payload<T, F>>,
)
    requires
        model.inv(),
        model.at_rest(thread),
        model.locals[thread] != 0 ==> {
            &&& model.collectors[model.locals[thread]].garbage.len() == 0
            &&& !model.scanning(model.locals[thread])
        },
        !model.occupied(temporary),
        temporary != 0,
        temporary % 4 == 0,
        model.exited(post, thread, temporary, log, extended),
    ensures
        ({
            let c = model.locals[thread];
            let last = model.lock is Free && forall|d: usize| #[trigger]
                model.registered(d) && d != c ==> model.collectors[d].invalid;
            if last {
                (log + model.estates(model.chain)).is_prefix_of(extended)
            } else {
                extended == log && post == model.exit(thread, temporary)
            }
        }),
{
    let c = model.locals[thread];
    let begun = model.begin_exit(thread, temporary);
    let swept = begun.clear_chain();
    let destroyed = log + swept.dropped.skip(model.dropped.len() as int);
    let (handed, emptied) = choose|handed: Model<T, F>, emptied: Model<T, F>|
        {
            &&& handed.inv()
            &&& if begun.lock is Free && begun.all_invalid(begun.chain) {
                swept.acts(handed, temporary) && handed.dropped == model.dropped
            } else {
                handed == swept.mark()
            }
            &&& #[trigger] handed.cleared_out(emptied, temporary, destroyed, extended)
            &&& emptied.collectors[temporary].empty()
            &&& post == emptied.finish_exit(thread)
        };
    lemma_cleared_log(handed, emptied, temporary, destroyed, extended);
    lemma_begin_exit(model, thread, temporary);
    lemma_last(model, thread, temporary);
    if begun.lock is Free && begun.all_invalid(begun.chain) {
        lemma_swept_last(model, thread, temporary);
        assert(destroyed == log + model.estates(model.chain));
    } else {
        lemma_swept_other(model, thread, temporary);
        assert(destroyed =~= log);
        assert(handed == swept.mark());
        handed.lemma_clear_empty(temporary);
        assert(model.exit(thread, temporary) == swept.mark().finish_exit(thread));
    }
}

/// What the passes over the collector of a terminating thread add to what has been destroyed.
proof fn lemma_cleared_log<T, F>(
    handed: Model<T, F>,
    emptied: Model<T, F>,
    c: usize,
    log: Seq<Payload<T, F>>,
    extended: Seq<Payload<T, F>>,
)
    requires
        handed.cleared_out(emptied, c, log, extended),
    ensures
        log.is_prefix_of(extended),
        handed.collectors[c].empty() ==> emptied == handed && extended == log,
{
    let states = choose|states: Seq<Model<T, F>>| #[trigger]
        handed.cleared_in(emptied, states, c, log, extended);
    assert(handed.cleared_in(emptied, states, c, log, extended));
    if handed.collectors[c].empty() {
        if states.len() > 1 {
            lemma_passes_first(states, c);
        }
        assert(extended =~= log);
    }
}

/// What is destroyed with the chain when the last thread terminates.
proof fn lemma_swept_last<T, F>(model: Model<T, F>, thread: int, temporary: usize)
    requires
        model.inv(),
        model.at_rest(thread),
        model.locals[thread] != 0 ==> {
            &&& model.collectors[model.locals[thread]].garbage.len() == 0
            &&& !model.scanning(model.locals[thread])
        },
        !model.occupied(temporary),
        temporary != 0,
        temporary % 4 == 0,
        ({
            let begun = model.begin_exit(thread, temporary);
            begun.lock is Free && begun.all_invalid(begun.chain)
        }),
    ensures
        model.begin_exit(thread, temporary).clear_chain().dropped.skip(model.dropped.len() as int)
            == model.estates(model.chain),
{
    let swept = model.begin_exit(thread, temporary).clear_chain();
    lemma_begin_exit(model, thread, temporary);
    lemma_last(model, thread, temporary);
    law_exit(model, thread, temporary);
    let begun = model.begin_exit(thread, temporary);
    assert(begun.collectors[temporary].empty());
    begun.lemma_swept(temporary);
    begun.lemma_clear_chain();
    assert(swept.locals[thread] == temporary);
    swept.lemma_clear_empty(temporary);
    assert(swept.finish_exit(thread).dropped == swept.dropped);
    assert(model.exit(thread, temporary) == swept.finish_exit(thread));
    assert(swept.dropped.skip(model.dropped.len() as int) =~= model.estates(model.chain));
}

/// Nothing is destroyed with the chain when another thread terminates.
proof fn lemma_swept_other<T, F>(model: Model<T, F>, thread: int, temporary: usize)
    requires
        model.begin_exit(thread, temporary).inv(),
        0 <= thread < model.locals.len(),
        !model.occupied(temporary),
        ({
            let begun = model.begin_exit(thread, temporary);
            !(begun.lock is Free && begun.all_invalid(begun.chain))
        }),
    ensures
        ({
            let swept = model.begin_exit(thread, temporary).clear_chain();
            &&& swept.dropped.skip(model.dropped.len() as int) =~= Seq::empty()
            &&& swept.collectors[temporary].empty()
        }),
{
    let begun = model.begin_exit(thread, temporary);
    assert(begun.collectors[temporary].empty());
    begun.lemma_swept(temporary);
}

/// There is no pass over a collector that keeps nothing.
proof fn lemma_passes_first<T, F>(states: Seq<Model<T, F>>, c: usize)
    requires
        Model::passes(states, c),
        states.len() > 1,
    ensures
        !states[0].collectors[c].empty(),
{
    let i: int = 0;
    let j = i + 1;
    assert(states[i].clear(c).acts(states[j], c));
}

/// Whether a thread is the last one to terminate.
proof fn lemma_last<T, F>(model: Model<T, F>, thread: int, temporary: usize)
    requires
        model.inv(),
        model.at_rest(thread),
        !model.occupied(temporary),
    ensures
        ({
            let begun = model.begin_exit(thread, temporary);
            (begun.lock is Free && begun.all_invalid(begun.chain)) == (model.lock is Free
                && forall|d: usize| #[trigger]
                model.registered(d) && d != model.locals[thread] ==> model.collectors[d].invalid)
        }),
{
    let c = model.locals[thread];
    let begun = model.begin_exit(thread, temporary);
    law_begin_exit(model, thread, temporary);
    assert(!model.occupied(0));
    if begun.all_invalid(begun.chain) {
        assert forall|d: usize| #[trigger] model.registered(d) && d != c implies model.collectors[d].invalid by {
            let i = begun.chain.index_of(d);
            assert(begun.collectors[begun.chain[i]].invalid);
            assert(model.collectors.contains_key(d));
            assert(model.occupied(d));
            assert(begun.collectors.contains_key(d) == model.collectors.contains_key(d));
        }
    }
    if forall|d: usize| #[trigger]
        model.registered(d) && d != c ==> model.collectors[d].invalid {
        assert forall|i: int| 0 <= i < begun.chain.len() implies begun.collectors[
            #[trigger] begun.chain[i]
        ].invalid by {
            let d = begun.chain[i];
            assert(model.registered(d));
            assert(model.collectors.contains_key(d));
            assert(model.occupied(d));
            assert(begun.collectors.contains_key(d) == model.collectors.contains_key(d));
        }
    }
}

} // verus!

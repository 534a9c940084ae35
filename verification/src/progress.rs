//! A thread that is alone reclaims all that it has retired.

use crate::behaviour;
use crate::model::Model;
use vstd::prelude::*;

verus! {

// Progress.

/// A thread gets a guard and drops it, and does nothing else.
pub open spec fn pass<T, F>(model: Model<T, F>, c: usize) -> Model<T, F> {
    model.new_guard(c, true).end_guard(c, model.tokens)
}

/// The same so many times.
pub open spec fn idle<T, F>(model: Model<T, F>, c: usize, times: nat) -> Model<T, F>
    decreases times,
{
    if times == 0 {
        model
    } else {
        idle(pass(model, c), c, (times - 1) as nat)
    }
}

/// The thread of the collector is alone, has no guard, and is not in the middle of anything.
pub open spec fn lone<T, F>(model: Model<T, F>, c: usize) -> bool {
    &&& model.inv()
    &&& model.lock is Free
    &&& model.chain == seq![c]
    &&& !model.collectors[c].invalid
    &&& model.collectors[c].inactive
    &&& model.collectors[c].pending is None
    &&& model.collectors[c].num_readers == 0
}

/// What a guard of a thread that is alone does to the epoch and to the lists.
#[verifier::spinoff_prover]
proof fn lemma_pass<T, F>(model: Model<T, F>, c: usize)
    requires
        lone(model, c),
    ensures
        ({
            let post = pass(model, c);
            let before = model.collectors[c];
            let after = post.collectors[c];
            let moves = before.announcement != model.epoch % 4;
            &&& lone(post, c)
            &&& after.announcement == model.epoch % 4
            &&& before.next_epoch_update > 0 ==> after.next_epoch_update
                == before.next_epoch_update - 1 && post.epoch == model.epoch
            &&& before.next_epoch_update == 0 && after.has_garbage ==> post.epoch == model.epoch
                + 1
            &&& model.epoch <= post.epoch <= model.epoch + 1
            &&& if moves {
                &&& after.current.len() == 0
                &&& after.previous == before.current
                &&& after.next == before.previous
                &&& forall|x: usize| #[trigger] before.next.contains(x) ==> !post.occupied(x)
            } else {
                &&& after.current == before.current
                &&& after.previous == before.previous
                &&& after.next == before.next
            }
        }),
{
    let guarded = model.new_guard(c, true);
    let post = pass(model, c);
    assert(model.registered(c)) by {
        assert(model.chain[0] == c);
    }
    assert(model.collectors[c].local_ok());
    behaviour::law_first_guard(model, c, true);
    model.lemma_respects_new_guard(c, true);
    assert(guarded.registered(c));
    guarded.lemma_respects_end_guard(c, model.tokens);
    behaviour::law_last_guard(guarded, c, model.tokens);
    assert(behaviour::in_step(guarded, c)) by {
        assert forall|d: usize| #[trigger] guarded.registered(d) && d != c implies behaviour::agrees(
            guarded.collectors[c],
            guarded.collectors[d],
        ) by {
            let i = guarded.chain.index_of(d);
            assert(guarded.chain[i] == d);
        }
    }
    assert(post.registered(c));
    assert(post.chain =~= seq![c]) by {
        lemma_alone(guarded, c, model.tokens);
    }
    let first = guarded.collectors[c].current;
    let second = post.collectors[c].current;
    assert(second =~= second.skip(0));
    assert(post.collectors.contains_key(c));
    assert(post.collectors[c].flag_ok());
    assert forall|x: usize| #[trigger] model.collectors[c].next.contains(x) && !guarded.occupied(
        x,
    ) implies !post.occupied(x) by {
        lemma_end_guard_occupied(guarded, c, model.tokens, x);
    }
}

/// A thread that is alone stays in the chain.
proof fn lemma_alone<T, F>(model: Model<T, F>, c: usize, guard: nat)
    requires
        model.lock is Free,
        model.chain == seq![c],
    ensures
        model.end_guard(c, guard).chain == model.chain,
{
    let left = model.leave(c, guard);
    let locked = left.scan_lock(c);
    assert(locked.scan_next() == locked.scan_pass());
    assert(locked.scan_pass().lock->Scan_0.rest.len() == 0);
    assert(locked.scan_pass().scan_run() == locked.scan_pass().scan_advance());
}

/// Dropping a guard brings nothing into being.
proof fn lemma_end_guard_occupied<T, F>(model: Model<T, F>, c: usize, guard: nat, x: usize)
    requires
        model.inv(),
        model.registered(c),
        !model.collectors[c].invalid,
        model.collectors[c].num_readers == 1,
        model.collectors[c].guards.contains(guard),
        model.collectors[c].garbage.len() == 0,
        !model.occupied(x),
    ensures
        !model.end_guard(c, guard).occupied(x),
{
    let left = model.leave(c, guard);
    behaviour::law_last_guard(model, c, guard);
    assert(model.collectors.contains_key(c));
    assert(model.collectors[c].local_ok());
    model.lemma_leave(c, guard);
    assert(left.registered(c));
    assert(x != c);
    if left.scan_due(c) && left.lock is Free {
        behaviour::law_scan_advances(left, c);
        assert(left.scan(c).collectors.contains_key(x) == left.collectors.contains_key(x));
    }
}

/// A thread that is alone, and has retired an instance since it acknowledged an epoch change, changes
/// the epoch by the time that it has dropped its last guard one time more than its countdown to the
/// next scan tells, without acceleration.
pub proof fn law_idle_advances<T, F>(model: Model<T, F>, c: usize, x: usize)
    requires
        lone(model, c),
        model.collectors[c].current.contains(x) || model.collectors[c].previous.contains(x)
            && model.collectors[c].announcement == model.epoch % 4,
    ensures
        idle(model, c, (model.collectors[c].next_epoch_update + 1) as nat).epoch > model.epoch,
    decreases model.collectors[c].next_epoch_update,
{
    let next = pass(model, c);
    let count = model.collectors[c].next_epoch_update;
    lemma_pass(model, c);
    assert(next.registered(c)) by {
        assert(next.chain[0] == c);
    }
    assert(next.collectors.contains_key(c));
    assert(next.collectors[c].flag_ok());
    if count > 0 {
        law_idle_advances(next, c, x);
        assert(idle(model, c, (count + 1) as nat) == idle(next, c, count as nat));
    } else {
        assert(next.collectors[c].current.contains(x) || next.collectors[c].previous.contains(x));
        assert(idle(model, c, 1) == idle(next, c, 0));
    }
}

/// The number of times that a thread that is alone gets a guard until an instance is reclaimed does
/// not exceed this.
pub open spec fn patience<T, F>(model: Model<T, F>, c: usize, x: usize) -> nat {
    let collector = model.collectors[c];
    let lists: nat = if collector.current.contains(x) {
        3
    } else if collector.previous.contains(x) {
        2
    } else {
        1
    };
    let drops: nat = if collector.announcement != model.epoch % 4 {
        1
    } else {
        collector.next_epoch_update as nat + 2
    };
    300 * (lists - 1) as nat + drops
}

/// A thread that is alone reclaims whatever it has retired, without acceleration, within a bounded
/// number of guards.
pub proof fn law_idle_reclaims<T, F>(model: Model<T, F>, c: usize, x: usize)
    requires
        lone(model, c),
        model.collectors[c].current.contains(x) || model.collectors[c].previous.contains(x)
            || model.collectors[c].next.contains(x),
    ensures
        patience(model, c, x) <= 900,
        exists|times: nat|
            times <= patience(model, c, x) && !(#[trigger] idle(model, c, times)).occupied(x),
    decreases patience(model, c, x),
{
    let next = pass(model, c);
    let collector = model.collectors[c];
    lemma_pass(model, c);
    assert(next.registered(c)) by {
        assert(next.chain[0] == c);
    }
    assert(next.collectors.contains_key(c));
    assert(next.collectors[c].flag_ok());
    assert(model.registered(c)) by {
        assert(model.chain[0] == c);
    }
    assert(model.collectors[c].distinct());
    assert(next.collectors[c].distinct());
    if collector.next.contains(x) && collector.announcement != model.epoch % 4 {
        assert(idle(model, c, 1) == idle(next, c, 0));
        assert(!idle(model, c, 1).occupied(x));
    } else {
        assert(next.collectors[c].current.contains(x) || next.collectors[c].previous.contains(x)
            || next.collectors[c].next.contains(x));
        assert(patience(next, c, x) < patience(model, c, x));
        law_idle_reclaims(next, c, x);
        let times = choose|times: nat|
            times <= patience(next, c, x) && !(#[trigger] idle(next, c, times)).occupied(x);
        assert(idle(model, c, times + 1) == idle(next, c, times));
        assert(!idle(model, c, times + 1).occupied(x));
    }
}

} // verus!

//! What each operation does to the words and lists that it finds.

use crate::model::{Bag, CollectorModel, Model};
use crate::Tag;
use vstd::prelude::*;

verus! {

// Retirement.

/// Retiring an instance puts it in front of what the thread has retired most recently, and brings the
/// next scan closer: the number of guards to be dropped until then never rises, is lowered by one at
/// least unless it is zero, and does not exceed 63 afterwards. All other lists, collectors, instances
/// and words stay as they are.
pub proof fn law_retire<T, F>(model: Model<T, F>, c: usize, x: usize)
    requires
        model.collectors.contains_key(c),
        model.instances.contains_key(x),
    ensures
        ({
            let post = model.retire(c, x);
            let before = model.collectors[c].next_epoch_update;
            let after = post.collectors[c].next_epoch_update;
            &&& after <= before
            &&& before > 0 ==> after < before
            &&& after <= 63
            &&& 0 < before <= 63 ==> after == before - 1
            &&& before > 63 ==> after == 63
            &&& post.collectors[c].current == seq![x] + model.collectors[c].current
            &&& post.collectors[c].has_garbage
            &&& post.collectors[c] == (CollectorModel {
                current: post.collectors[c].current,
                has_garbage: post.collectors[c].has_garbage,
                next_epoch_update: after,
                ..model.collectors[c]
            })
            &&& forall|d: usize|
                d != c ==> {
                    &&& #[trigger] post.collectors.contains_key(d)
                        == model.collectors.contains_key(d)
                    &&& post.collectors[d] == model.collectors[d]
                }
            &&& post.instances.contains_key(x)
            &&& post.instances[x].body == model.instances[x].body
            &&& post.instances[x].shared == model.instances[x].shared
            &&& post.instances[x].refs == model.instances[x].refs
            &&& post.instances[x].retirement is Some
            &&& post.instances[x].retirement->0.holder == c
            &&& post.instances[x].retirement->0.stamp == model.epoch
            &&& forall|y: usize|
                y != x ==> {
                    &&& #[trigger] post.instances.contains_key(y)
                        == model.instances.contains_key(y)
                    &&& post.instances[y] == model.instances[y]
                }
            &&& same_words(model, post)
            &&& post.dropped == model.dropped
            &&& post.tokens > model.tokens
        }),
{
}

/// Neither the epoch nor the chain, its tag and its lock, nor the collectors of the threads differ.
pub open spec fn same_words<T, F>(pre: Model<T, F>, post: Model<T, F>) -> bool {
    &&& post.epoch == pre.epoch
    &&& post.tag == pre.tag
    &&& post.chain == pre.chain
    &&& post.lock == pre.lock
    &&& post.locals == pre.locals
}

/// What is about to be reclaimed goes back, the first item first, in front of what the thread has
/// retired most recently, and brings the next scan closer as retirement does.
pub proof fn law_recollect<T, F>(model: Model<T, F>, c: usize)
    requires
        model.collectors.contains_key(c),
        model.collectors[c].garbage.len() > 0,
    ensures
        ({
            let post = model.recollect(c);
            let before = model.collectors[c].next_epoch_update;
            let after = post.collectors[c].next_epoch_update;
            let garbage = model.collectors[c].garbage;
            &&& after <= before
            &&& before > 0 ==> after < before
            &&& after <= 63
            &&& 0 < before <= 63 ==> after == before - 1
            &&& before > 63 ==> after == 63
            &&& seq![garbage[0]] + post.collectors[c].garbage == garbage
            &&& post.collectors[c].current == seq![garbage[0]] + model.collectors[c].current
            &&& post.collectors[c].has_garbage
            &&& post.collectors[c] == (CollectorModel {
                current: post.collectors[c].current,
                garbage: post.collectors[c].garbage,
                has_garbage: post.collectors[c].has_garbage,
                next_epoch_update: after,
                ..model.collectors[c]
            })
            &&& forall|d: usize|
                d != c ==> {
                    &&& #[trigger] post.collectors.contains_key(d)
                        == model.collectors.contains_key(d)
                    &&& post.collectors[d] == model.collectors[d]
                }
            &&& post.instances == model.instances
            &&& same_words(model, post)
            &&& post.dropped == model.dropped
            &&& post.tokens == model.tokens
        }),
{
    let garbage = model.collectors[c].garbage;
    assert(seq![garbage[0]] + garbage.skip(1) =~= garbage);
}

/// All the garbage goes back: its last item ends up in front.
pub proof fn law_recollect_all<T, F>(model: Model<T, F>, c: usize)
    requires
        model.collectors.contains_key(c),
    ensures
        ({
            let post = model.recollect_all(c);
            &&& post.collectors.contains_key(c)
            &&& post.collectors[c].current == model.collectors[c].garbage.reverse()
                + model.collectors[c].current
            &&& post.collectors[c].garbage.len() == 0
            &&& post.collectors[c].previous == model.collectors[c].previous
            &&& post.collectors[c].next == model.collectors[c].next
            &&& post.collectors[c].num_readers == model.collectors[c].num_readers
            &&& post.collectors[c].guards == model.collectors[c].guards
            &&& post.collectors[c].announcement == model.collectors[c].announcement
            &&& post.collectors[c].has_garbage == (model.collectors[c].has_garbage
                || model.collectors[c].garbage.len() > 0)
            &&& post.collectors[c].next_epoch_update == {
                let before = model.collectors[c].next_epoch_update;
                let start: int = if before > 63 {
                    64
                } else {
                    before as int
                };
                if model.collectors[c].garbage.len() == 0 {
                    before as int
                } else if start < model.collectors[c].garbage.len() {
                    0
                } else {
                    start - model.collectors[c].garbage.len()
                }
            }
            &&& post.collectors[c] == (CollectorModel {
                current: post.collectors[c].current,
                garbage: post.collectors[c].garbage,
                has_garbage: post.collectors[c].has_garbage,
                next_epoch_update: post.collectors[c].next_epoch_update,
                ..model.collectors[c]
            })
            &&& forall|d: usize|
                d != c ==> {
                    &&& #[trigger] post.collectors.contains_key(d)
                        == model.collectors.contains_key(d)
                    &&& post.collectors[d] == model.collectors[d]
                }
            &&& post.instances == model.instances
            &&& same_words(model, post)
            &&& post.dropped == model.dropped
            &&& post.tokens == model.tokens
        }),
    decreases model.collectors[c].garbage.len(),
{
    let garbage = model.collectors[c].garbage;
    let current = model.collectors[c].current;
    if garbage.len() > 0 {
        let next = model.recollect(c);
        law_recollect(model, c);
        assert(next.collectors[c].garbage =~= garbage.skip(1));
        law_recollect_all(next, c);
        assert(garbage.skip(1).reverse() + (seq![garbage[0]] + current) =~= garbage.reverse()
            + current);
    } else {
        assert(garbage.reverse() + current =~= current);
    }
}

// Guards.

/// Nothing but the number of guards, and the guards, of a collector differs.
pub open spec fn counts<T, F>(
    pre: Model<T, F>,
    post: Model<T, F>,
    c: usize,
    num_readers: int,
    guards: Set<nat>,
) -> bool {
    &&& post.collectors.contains_key(c)
    &&& post.collectors[c].num_readers == num_readers
    &&& post.collectors[c].guards == guards
    &&& post.collectors[c] == (CollectorModel {
        num_readers: post.collectors[c].num_readers,
        guards: post.collectors[c].guards,
        ..pre.collectors[c]
    })
    &&& forall|d: usize|
        d != c ==> {
            &&& #[trigger] post.collectors.contains_key(d) == pre.collectors.contains_key(d)
            &&& post.collectors[d] == pre.collectors[d]
        }
    &&& post.instances == pre.instances
    &&& same_words(pre, post)
    &&& post.dropped == pre.dropped
}

/// A guard besides another one is counted, and nothing else happens; so it is when it is dropped.
pub proof fn law_inner_guard<T, F>(
    model: Model<T, F>,
    c: usize,
    collect_garbage: bool,
    guard: nat,
)
    requires
        model.collectors.contains_key(c),
    ensures
        0 < model.collectors[c].num_readers < u32::MAX ==> counts(
            model,
            model.new_guard(c, collect_garbage),
            c,
            model.collectors[c].num_readers + 1,
            model.collectors[c].guards.insert(model.tokens),
        ) && model.new_guard(c, collect_garbage).tokens == model.tokens + 1,
        model.collectors[c].num_readers > 1 ==> counts(
            model,
            model.end_guard(c, guard),
            c,
            model.collectors[c].num_readers - 1,
            model.collectors[c].guards.remove(guard),
        ) && model.end_guard(c, guard).tokens == model.tokens,
{
}

/// The first guard of a thread makes it known that the thread reads in the current epoch. The chain,
/// the epoch and the countdown to the next scan stay as they are.
pub proof fn law_first_guard<T, F>(model: Model<T, F>, c: usize, collect_garbage: bool)
    requires
        model.inv(),
        model.registered(c),
        !model.collectors[c].invalid,
        model.collectors[c].inactive,
        model.collectors[c].pending is None,
        model.collectors[c].num_readers == 0,
    ensures
        ({
            let post = model.new_guard(c, collect_garbage);
            let before = model.collectors[c];
            let after = post.collectors[c];
            &&& post.collectors.contains_key(c)
            &&& after.announcement == model.epoch % 4
            &&& after.seen == model.epoch
            &&& !after.inactive
            &&& !after.invalid
            &&& after.num_readers == 1
            &&& after.pending is None
            &&& after.guards == set![model.tokens]
            &&& after.session == model.tokens
            &&& after.next_epoch_update == before.next_epoch_update
            &&& after.retirement is None
            &&& after.garbage.len() == 0
            &&& same_words(model, post)
            &&& post.tokens == model.tokens + 1
            &&& if collect_garbage && before.announcement != model.epoch % 4 {
                // Every list moves one place on, and the last one is reclaimed.
                &&& after.current.len() == 0
                &&& after.previous == before.current
                &&& after.next == before.previous
                &&& after.has_garbage == (before.current.len() > 0 || before.previous.len() > 0)
                &&& forall|x: usize| #[trigger] before.next.contains(x) ==> !post.occupied(x)
                &&& forall|a: usize| #[trigger]
                    model.occupied(a) && !before.next.contains(a) ==> post.occupied(a) == (
                    model.retirement(a) is None || post.occupied(model.retirement(a)->0.holder))
                &&& forall|x: usize| #[trigger]
                    model.instances.contains_key(x) && !before.next.contains(x) && (
                    model.instances[x].retirement is None || model.registered(
                        model.instances[x].retirement->0.holder,
                    )) ==> {
                        &&& post.instances.contains_key(x)
                        &&& post.instances[x] == model.instances[x]
                    }
                &&& forall|d: usize|
                    d != c && #[trigger] post.collectors.contains_key(d) ==> {
                        &&& model.collectors.contains_key(d)
                        &&& post.collectors[d] == model.collectors[d]
                    }
                &&& forall|d: usize|
                    d != c && #[trigger] model.collectors.contains_key(d)
                        && model.collectors[d].retirement is None ==> {
                        &&& post.collectors.contains_key(d)
                        &&& post.collectors[d] == model.collectors[d]
                    }
            } else {
                &&& after.current == before.current
                &&& after.previous == before.previous
                &&& after.next == before.next
                &&& after.has_garbage == before.has_garbage
                &&& post.instances == model.instances
                &&& post.dropped == model.dropped
                &&& forall|d: usize|
                    d != c ==> {
                        &&& #[trigger] post.collectors.contains_key(d)
                            == model.collectors.contains_key(d)
                        &&& post.collectors[d] == model.collectors[d]
                    }
            }
        }),
{
    let post = model.new_guard(c, collect_garbage);
    let before = model.collectors[c];
    let announced = model.enter(c).announce(c);
    assert(before.local_ok());
    assert(before.garbage =~= Seq::empty());
    model.lemma_respects_new_guard(c, collect_garbage);
    model.lemma_enter(c);
    assert(model.enter(c).registered(c));
    model.enter(c).lemma_announce(c);
    assert(announced.registered(c));
    if collect_garbage && before.announcement != model.epoch % 4 {
        announced.lemma_respects_epoch_updated(c);
        announced.lemma_rotate(c);
        let rotated = announced.rotate(c);
        let bound = rotated.rank(c);
        rotated.lemma_drop_bag(c, Bag::Garbage, bound);
        rotated.lemma_drop_bag_removes(c, Bag::Garbage, bound);
        assert forall|x: usize| #[trigger] before.next.contains(x) implies !post.occupied(x) by {
            assert(rotated.collectors[c].garbage.contains(x));
            assert(rotated.collectors[c].holds(x));
            assert(rotated.keeps(c, x));
            assert(rotated.occupied(x));
            assert(rotated.under(x, rotated.collectors[c].garbage));
            assert(rotated.removed(post, x));
        }
        assert forall|x: usize| #[trigger]
            model.instances.contains_key(x) && !before.next.contains(x) && (
            model.instances[x].retirement is None || model.registered(
                model.instances[x].retirement->0.holder,
            )) implies {
            &&& post.instances.contains_key(x)
            &&& post.instances[x] == model.instances[x]
        } by {
            assert(rotated.instances.contains_key(x));
            assert(rotated.occupied(x));
            assert(rotated.retirement(x) == model.instances[x].retirement);
            if model.instances[x].retirement is Some {
                let h = model.instances[x].retirement->0.holder;
                assert(rotated.registered(h));
                assert(rotated.collectors[h].retirement is None);
            }
            assert(!rotated.under(x, rotated.collectors[c].garbage));
            assert(!rotated.removed(post, x));
            assert(post.occupied(x));
            if post.collectors.contains_key(x) {
                assert(rotated.collectors.contains_key(x));
            }
        }
        assert forall|d: usize|
            d != c && #[trigger] model.collectors.contains_key(d)
                && model.collectors[d].retirement is None implies {
            &&& post.collectors.contains_key(d)
            &&& post.collectors[d] == model.collectors[d]
        } by {
            assert(rotated.collectors.contains_key(d));
        }
        rotated.lemma_only_removes(post, c, bound);
        assert forall|a: usize| #[trigger]
            model.occupied(a) && !before.next.contains(a) implies post.occupied(a) == (
        model.retirement(a) is None || post.occupied(model.retirement(a)->0.holder)) by {
            assert(rotated.occupied(a));
            assert(rotated.retirement(a) == model.retirement(a));
            assert(rotated.removed(post, a) == rotated.under(a, rotated.collectors[c].garbage));
            if model.retirement(a) is Some {
                let h = model.retirement(a)->0.holder;
                assert(model.collectors.contains_key(h) && model.collectors[h].holds(a));
                assert(rotated.collectors.contains_key(h));
                assert(rotated.occupied(h));
                assert(rotated.removed(post, h) == rotated.under(
                    h,
                    rotated.collectors[c].garbage,
                ));
                if rotated.under(h, rotated.collectors[c].garbage) {
                    assert(rotated.collectors[h].retirement is Some) by {
                        if rotated.collectors[c].garbage.contains(h) {
                            assert(rotated.collectors[c].holds(h));
                            assert(rotated.keeps(c, h));
                        }
                    }
                    assert(rotated.collectors[h].holds(a));
                    assert(rotated.keeps(h, a));
                    assert(rotated.retirement(h) is Some);
                }
            }
        }
    }
}

// Scans.

/// The thread of the collector does not read in another epoch than the thread of `c`, as the words
/// of the two collectors tell: the collector has been given up, or the two words are the same.
pub open spec fn agrees(c: CollectorModel, other: CollectorModel) -> bool {
    ||| other.invalid
    ||| !other.inactive && other.announcement == c.announcement
}

/// A collector is passed by a scan if it is that of the scanning thread, if it has been given up, or
/// if its thread has announced the same epoch; it makes no difference what it keeps.
pub proof fn law_ready<T, F>(model: Model<T, F>, c: usize, x: usize)
    requires
        model.inv(),
        model.collectors.contains_key(c),
        model.collectors.contains_key(x),
        !model.collectors[c].inactive,
        !model.collectors[c].invalid,
    ensures
        model.ready(c, x) == (x == c || agrees(model.collectors[c], model.collectors[x])),
{
    assert(model.collectors[c].local_ok());
    assert(model.collectors[x].local_ok());
}

/// What a scan leaves as it is, and how the collector of the scanning thread changes.
pub open spec fn scanned_frame<T, F>(pre: Model<T, F>, post: Model<T, F>, c: usize) -> bool {
    &&& post.instances == pre.instances
    &&& post.dropped == pre.dropped
    &&& post.locals == pre.locals
    &&& pre.collectors[c].current.is_suffix_of(post.collectors[c].current)
    &&& post.collectors[c].has_garbage == (pre.collectors[c].has_garbage
        || post.collectors[c].current.len() > pre.collectors[c].current.len())
    &&& post.collectors[c].next_epoch_update <= pre.collectors[c].next_epoch_update
    &&& post.collectors[c].current.len() == pre.collectors[c].current.len()
        ==> post.collectors[c].next_epoch_update == pre.collectors[c].next_epoch_update
    &&& post.collectors[c].current.len() - pre.collectors[c].current.len() == pre.chain.len()
        - post.chain.len()
    &&& post.collectors[c] == (CollectorModel {
        current: post.collectors[c].current,
        has_garbage: post.collectors[c].has_garbage,
        next_epoch_update: post.collectors[c].next_epoch_update,
        ..pre.collectors[c]
    })
    &&& forall|d: usize|
        d != c ==> {
            &&& #[trigger] post.collectors.contains_key(d) == pre.collectors.contains_key(d)
            &&& post.collectors[d] == (CollectorModel {
                retirement: post.collectors[d].retirement,
                ..pre.collectors[d]
            })
        }
    &&& post.collectors.contains_key(c) == pre.collectors.contains_key(c)
}

/// See [`scanned_frame`].
proof fn lemma_frame_transitive<T, F>(
    pre: Model<T, F>,
    mid: Model<T, F>,
    post: Model<T, F>,
    c: usize,
)
    requires
        scanned_frame(pre, mid, c),
        scanned_frame(mid, post, c),
    ensures
        scanned_frame(pre, post, c),
{
    let first = pre.collectors[c].current;
    let second = mid.collectors[c].current;
    let third = post.collectors[c].current;
    assert(first =~= third.skip(third.len() - first.len())) by {
        assert forall|i: int| 0 <= i < first.len() implies first[i] == third[third.len()
            - first.len() + i] by {
            let k = second.len() - first.len() + i;
            assert(second.skip(second.len() - first.len())[i] == second[k]);
            assert(third.skip(third.len() - second.len())[k] == third[third.len() - second.len()
                + k]);
        }
    }
    assert(first.len() <= second.len() <= third.len());
    assert(first.is_suffix_of(third));
    assert forall|d: usize| d != c implies {
        &&& #[trigger] post.collectors.contains_key(d) == pre.collectors.contains_key(d)
        &&& post.collectors[d] == (CollectorModel {
            retirement: post.collectors[d].retirement,
            ..pre.collectors[d]
        })
    } by {
        assert(mid.collectors.contains_key(d) == pre.collectors.contains_key(d));
        assert(post.collectors.contains_key(d) == mid.collectors.contains_key(d));
    }
}

/// One more collector that a scan goes past: it stays in the chain unless it has been given up, and
/// stands in the chain where it can be taken out. What is taken out is retired by the scanning
/// thread.
pub proof fn law_scan_next<T, F>(model: Model<T, F>)
    requires
        model.inv(),
        model.lock is Scan,
        model.lock->Scan_0.rest.len() > 0,
    ensures
        ({
            let scan = model.lock->Scan_0;
            let x = scan.rest[0];
            let k = model.chain.len() - scan.rest.len();
            let post = model.scan_next();
            let leaves = x != scan.scanner && model.collectors[x].invalid && (scan.previous != 0
                || k == 0);
            &&& model.chain[k] == x
            &&& post.epoch == model.epoch
            &&& post.tag == model.tag
            &&& post.lock is Scan
            &&& post.lock->Scan_0.scanner == scan.scanner
            &&& post.lock->Scan_0.known == scan.known
            &&& seq![x] + post.lock->Scan_0.rest == scan.rest
            &&& scanned_frame(model, post, scan.scanner)
            &&& if leaves {
                &&& post.chain == model.chain.remove(k)
                &&& post.lock->Scan_0.previous == scan.previous
                &&& post.collectors[scan.scanner].current == seq![x]
                    + model.collectors[scan.scanner].current
                &&& post.collectors[scan.scanner].has_garbage
                &&& post.collectors[x].retirement is Some
                &&& post.collectors[x].retirement->0.holder == scan.scanner
                &&& forall|d: usize|
                    d != x ==> (#[trigger] post.collectors[d]).retirement
                        == model.collectors[d].retirement
            } else {
                &&& post.chain == model.chain
                &&& post.lock->Scan_0.previous == x
                &&& post.collectors == model.collectors
            }
        }),
{
    let scan = model.lock->Scan_0;
    let x = scan.rest[0];
    let k = model.chain.len() - scan.rest.len();
    let post = model.scan_next();
    let current = model.collectors[scan.scanner].current;
    model.lemma_passed(scan.rest);
    assert(model.chain[k] == x);
    assert(seq![x] + scan.rest.skip(1) =~= scan.rest);
    assert(current =~= current.skip(0));
    assert(current =~= (seq![x] + current).skip(1));
    assert((model.chain[0] == x) == (k == 0)) by {
        if model.chain[0] == x && k != 0 {
            assert(model.chain[0] != model.chain[k]);
        }
    }
    assert(model.passed(scan.rest) + scan.rest.skip(1) =~= model.chain.remove(k)) by {
        assert forall|i: int| k < i < model.chain.len() implies model.chain[i] == scan.rest[i
            - k] by {
            assert(scan.rest[i - k] == model.chain.skip(k)[i - k]);
        }
    }
    assert(model.registered(x)) by {
        assert(model.chain.contains(model.chain[k]));
    }
    assert(model.collectors.contains_key(x) && model.collectors.contains_key(scan.scanner));
    lemma_collected_counter(model.collectors[scan.scanner], x);
}

/// See [`law_retire`].
proof fn lemma_collected_counter(collector: CollectorModel, x: usize)
    ensures
        collector.collected(x).next_epoch_update <= collector.next_epoch_update,
{
}

/// A scan goes on with the next collector as long as its thread does not read in another epoch, and
/// ends in an epoch change if there is none left.
pub proof fn law_scan_run<T, F>(model: Model<T, F>)
    requires
        model.inv(),
        model.lock is Scan,
    ensures
        ({
            let scan = model.lock->Scan_0;
            let x = scan.rest[0];
            let post = model.scan_run();
            &&& scanned_frame(model, post, scan.scanner)
            &&& post.tag == model.tag
            &&& if scan.rest.len() == 0 {
                &&& post.epoch == scan.known + 1
                &&& post.chain == model.chain
                &&& post.collectors == model.collectors
            } else if x == scan.scanner || agrees(
                model.collectors[scan.scanner],
                model.collectors[x],
            ) {
                post == model.scan_next().scan_run()
            } else {
                post == model
            }
        }),
    decreases model.lock->Scan_0.rest.len(),
{
    let scan = model.lock->Scan_0;
    let current = model.collectors[scan.scanner].current;
    assert(current =~= current.skip(0));
    assert(model.collectors.contains_key(scan.scanner));
    if scan.rest.len() > 0 {
        let x = scan.rest[0];
        model.lemma_passed(scan.rest);
        assert(model.registered(x)) by {
            assert(model.chain[model.chain.len() - scan.rest.len()] == x);
        }
        law_ready(model, scan.scanner, x);
        if model.ready(scan.scanner, x) {
            let next = model.scan_next();
            law_scan_next(model);
            if next == model.scan_unlink() {
                model.lemma_scan_unlink();
            } else {
                model.lemma_scan_pass();
            }
            law_scan_run(next);
            lemma_frame_transitive(model, next, model.scan_run(), scan.scanner);
        }
    }
}

/// Every other thread that has not given up its collector has announced the same epoch as the thread
/// of `c`.
pub open spec fn in_step<T, F>(model: Model<T, F>, c: usize) -> bool {
    forall|d: usize| #[trigger]
        model.registered(d) && d != c ==> agrees(model.collectors[c], model.collectors[d])
}

/// A scan of a chain that is not locked takes the epoch one further if and only if every other thread
/// that has not given up its collector has announced the same epoch, whatever collectors keep. The
/// mark on the chain is gone afterwards, and the chain is not locked. No instance is affected.
pub proof fn law_scan_advances<T, F>(model: Model<T, F>, c: usize)
    requires
        model.inv(),
        model.lock is Free,
        model.registered(c),
        !model.collectors[c].inactive,
        !model.collectors[c].invalid,
        model.collectors[c].num_readers == 0,
    ensures
        ({
            let post = model.scan(c);
            &&& in_step(model, c) ==> {
                &&& post.epoch == model.collectors[c].seen + 1
                &&& post.epoch % 4 == (model.collectors[c].announcement + 1) % 4
                &&& forall|d: usize| #[trigger]
                    post.registered(d) == (model.registered(d) && !model.collectors[d].invalid)
            }
            &&& !in_step(model, c) ==> post.epoch == model.epoch
            &&& scanned_frame(model, post, c)
            &&& post.tag == Tag::Neither
            &&& post.lock is Free
        }),
{
    let locked = model.scan_lock(c);
    let post = model.scan(c);
    model.lemma_scanned(c);
    model.lemma_scan_lock(c);
    law_scan_run(locked);
    assert(model.collectors.contains_key(c));
    assert(model.collectors[c].local_ok());
    assert(in_step(model, c) == model.all_ready(c, model.chain)) by {
        if in_step(model, c) {
            assert forall|i: int| 0 <= i < model.chain.len() implies model.ready(
                c,
                #[trigger] model.chain[i],
            ) by {
                assert(model.registered(model.chain[i]));
                law_ready(model, c, model.chain[i]);
            }
        }
        if model.all_ready(c, model.chain) {
            assert forall|d: usize| #[trigger] model.registered(d) && d != c implies agrees(
                model.collectors[c],
                model.collectors[d],
            ) by {
                let i = model.chain.index_of(d);
                assert(model.ready(c, model.chain[i]));
                law_ready(model, c, d);
            }
        }
    }
}

/// Dropping the last guard of a thread makes it known that the thread does not read any more. A
/// positive number of guards to be dropped until the next scan is lowered by one, whatever the lists
/// contain; at zero it starts over at 63 if something is left to be reclaimed, and at 255 otherwise.
///
/// The thread scans the chain if and only if that number is zero, there is something to be reclaimed
/// or the chain is marked, and the chain is not locked, wherever in the chain its collector is. Then
/// the epoch goes one further if every other thread that has not given up its collector has announced
/// the same epoch. Nothing else happens.
#[verifier::spinoff_prover]
pub proof fn law_last_guard<T, F>(model: Model<T, F>, c: usize, guard: nat)
    requires
        model.inv(),
        model.registered(c),
        !model.collectors[c].invalid,
        model.collectors[c].num_readers == 1,
        model.collectors[c].guards.contains(guard),
        model.collectors[c].garbage.len() == 0,
    ensures
        ({
            let post = model.end_guard(c, guard);
            let before = model.collectors[c];
            let after = post.collectors[c];
            let scans = before.next_epoch_update == 0 && (before.has_garbage || model.tag
                == Tag::Second) && model.lock is Free;
            &&& after.num_readers == 0
            &&& after.inactive
            &&& !after.invalid
            &&& after.guards == before.guards.remove(guard)
            &&& after.announcement == before.announcement
            &&& after.seen == before.seen
            &&& after.previous == before.previous
            &&& after.next == before.next
            &&& after.garbage.len() == 0
            &&& before.current.is_suffix_of(after.current)
            &&& after.current.len() - before.current.len() == model.chain.len() - post.chain.len()
            &&& after.has_garbage == (before.has_garbage || after.current.len()
                > before.current.len())
            &&& before.next_epoch_update > 0 ==> after.next_epoch_update
                == before.next_epoch_update - 1
            &&& before.next_epoch_update == 0 ==> after.next_epoch_update == if after.has_garbage {
                63int
            } else {
                255
            }
            &&& post.instances == model.instances
            &&& post.dropped == model.dropped
            &&& post.locals == model.locals
            &&& post.lock == model.lock
            &&& post.epoch == if scans && in_step(model, c) {
                before.seen + 1
            } else {
                model.epoch
            }
            &&& scans ==> post.tag == Tag::Neither
            &&& forall|d: usize| #[trigger]
                model.registered(d) && !model.collectors[d].invalid ==> post.registered(d)
                    && (d != c ==> post.collectors[d] == model.collectors[d])
            &&& !scans ==> {
                &&& post.tag == model.tag
                &&& post.chain == model.chain
                &&& after.current == before.current
                &&& forall|d: usize|
                    d != c ==> {
                        &&& #[trigger] post.collectors.contains_key(d)
                            == model.collectors.contains_key(d)
                        &&& post.collectors[d] == model.collectors[d]
                    }
            }
            &&& scans && in_step(model, c) ==> forall|d: usize| #[trigger]
                model.registered(d) && model.collectors[d].invalid ==> !post.registered(d)
                    && after.current.contains(d)
        }),
{
    let post = model.end_guard(c, guard);
    let left = model.leave(c, guard);
    let before = model.collectors[c];
    assert(before.local_ok());
    vstd::set_lib::lemma_set_empty_equivalency_len(before.guards);
    model.lemma_leave(c, guard);
    assert(left.registered(c));
    assert forall|d: usize| #[trigger] left.registered(d) == model.registered(d) by {}
    assert(before.current =~= before.current.skip(0));
    let scans = before.next_epoch_update == 0 && (before.has_garbage || model.tag == Tag::Second);
    if scans && model.lock is Free {
        let scanned = left.scan(c);
        law_scan_advances(left, c);
        left.lemma_scan(c);
        left.lemma_scanned(c);
        assert(in_step(left, c) == in_step(model, c)) by {
            if in_step(left, c) {
                assert forall|d: usize| #[trigger] model.registered(d) && d != c implies agrees(
                    model.collectors[c],
                    model.collectors[d],
                ) by {
                    assert(left.registered(d));
                }
            }
        }
        assert forall|d: usize| #[trigger] post.registered(d) == scanned.registered(d) by {}
        assert forall|d: usize| #[trigger]
            model.registered(d) && !model.collectors[d].invalid implies post.registered(d) && (d
            != c ==> post.collectors[d] == model.collectors[d]) by {
            assert(left.registered(d));
            assert(left.collectors.contains_key(d));
            assert(scanned.registered(d));
            assert(scanned.collectors[d].retirement is None);
            assert(left.collectors[d].retirement is None);
        }
        if in_step(model, c) {
            assert forall|d: usize| #[trigger]
                model.registered(d) && model.collectors[d].invalid implies !post.registered(d)
                && post.collectors[c].current.contains(d) by {
                assert(left.registered(d));
                left.lemma_scan_occupied(c, d);
                assert(scanned.retirement(d) is Some);
                assert(scanned.collectors[c].holds(d));
                assert(left.collectors[d].retirement is None);
                if left.collectors[c].holds(d) {
                    assert(left.keeps(c, d));
                }
            }
        }
    }
}

// Single steps.

/// Nothing but what one collector is like differs.
pub open spec fn only_collector<T, F>(pre: Model<T, F>, post: Model<T, F>, c: usize) -> bool {
    &&& post.collectors.contains_key(c)
    &&& forall|d: usize|
        d != c ==> {
            &&& #[trigger] post.collectors.contains_key(d) == pre.collectors.contains_key(d)
            &&& post.collectors[d] == pre.collectors[d]
        }
    &&& post.instances == pre.instances
    &&& same_words(pre, post)
    &&& post.dropped == pre.dropped
}

/// A thread without a guard takes note of the epoch, and then announces the epoch that it has taken
/// note of, even if it is no longer the current one.
pub proof fn law_announce<T, F>(model: Model<T, F>, c: usize)
    requires
        model.collectors.contains_key(c),
    ensures
        ({
            let post = model.enter(c);
            let before = model.collectors[c];
            let after = post.collectors[c];
            &&& only_collector(model, post, c)
            &&& after.pending == Some(model.epoch)
            &&& after == (CollectorModel { num_readers: 1, pending: after.pending, ..before })
            &&& post.tokens == model.tokens
        }),
        model.collectors[c].pending is Some ==> ({
            let post = model.announce(c);
            let before = model.collectors[c];
            let after = post.collectors[c];
            &&& only_collector(model, post, c)
            &&& after.announcement == before.pending->0 % 4
            &&& after.seen == before.pending->0
            &&& after.pending is None
            &&& !after.inactive
            &&& after.guards == set![model.tokens]
            &&& after.session == model.tokens
            &&& after == (CollectorModel {
                announcement: after.announcement,
                seen: after.seen,
                pending: after.pending,
                inactive: after.inactive,
                guards: after.guards,
                session: after.session,
                ..before
            })
            &&& post.tokens == model.tokens + 1
        }),
{
}

/// A thread that acknowledges an epoch change moves every list one place on.
pub proof fn law_rotate<T, F>(model: Model<T, F>, c: usize)
    requires
        model.collectors.contains_key(c),
    ensures
        ({
            let post = model.rotate(c);
            let before = model.collectors[c];
            let after = post.collectors[c];
            &&& only_collector(model, post, c)
            &&& after.current.len() == 0
            &&& after.previous == before.current
            &&& after.next == before.previous
            &&& after.garbage == before.next
            &&& after.has_garbage == (after.previous.len() > 0 || after.next.len() > 0)
            &&& after == (CollectorModel {
                current: after.current,
                previous: after.previous,
                next: after.next,
                garbage: after.garbage,
                has_garbage: after.has_garbage,
                ..before
            })
            &&& post.tokens == model.tokens
        }),
{
}

/// A guard is counted off; if it was the last one, the thread makes it known later, and counts down to
/// its next scan.
pub proof fn law_leave_and_retreat<T, F>(model: Model<T, F>, c: usize, guard: nat)
    requires
        model.collectors.contains_key(c),
    ensures
        model.collectors[c].num_readers > 0 ==> counts(
            model,
            model.leave(c, guard),
            c,
            model.collectors[c].num_readers - 1,
            model.collectors[c].guards.remove(guard),
        ),
        ({
            let post = model.retreat(c);
            let before = model.collectors[c];
            let after = post.collectors[c];
            &&& only_collector(model, post, c)
            &&& after.inactive
            &&& before.next_epoch_update > 0 ==> after.next_epoch_update
                == before.next_epoch_update - 1
            &&& before.next_epoch_update == 0 && before.has_garbage ==> after.next_epoch_update
                == 63
            &&& before.next_epoch_update == 0 && !before.has_garbage ==> after.next_epoch_update
                == 255
            &&& after == (CollectorModel {
                inactive: after.inactive,
                next_epoch_update: after.next_epoch_update,
                ..before
            })
            &&& post.tokens == model.tokens
        }),
{
}

/// It is time for a thread to scan the chain if its countdown is at zero, and it has something to
/// reclaim or the chain is marked; it makes no difference where in the chain its collector is.
pub proof fn law_scan_due<T, F>(model: Model<T, F>, c: usize)
    ensures
        model.scan_due(c) == (model.collectors[c].next_epoch_update == 0 && (
        model.collectors[c].has_garbage || model.tag == Tag::Second)),
{
}

/// The last guard of a thread whose countdown is at zero, and that keeps retired instances, makes the
/// thread scan the chain unless it is locked.
pub proof fn law_last_guard_scans<T, F>(model: Model<T, F>, c: usize, guard: nat)
    requires
        model.inv(),
        model.registered(c),
        model.lock is Free,
        model.collectors[c].num_readers == 1,
        model.collectors[c].next_epoch_update == 0,
        model.collectors[c].previous.len() > 0 || model.collectors[c].current.len() > 0
            || model.collectors[c].next.len() > 0,
    ensures
        model.end_guard(c, guard) == model.leave(c, guard).scan(c).retreat(c),
{
    assert(model.collectors.contains_key(c));
    assert(model.collectors[c].local_ok());
}

/// A chain that is locked to be scanned, or to be cleared, loses its mark. A scan covers the whole
/// chain, for the epoch that the thread has announced.
pub proof fn law_lock<T, F>(model: Model<T, F>, c: usize)
    ensures
        ({
            let post = model.scan_lock(c);
            &&& post.tag == Tag::First
            &&& post.lock is Scan
            &&& post.lock->Scan_0.scanner == c
            &&& post.lock->Scan_0.known == model.collectors[c].seen
            &&& post.lock->Scan_0.previous == 0
            &&& post.lock->Scan_0.rest == model.chain
            &&& post == (Model { tag: post.tag, lock: post.lock, ..model })
        }),
        ({
            let post = model.clear_lock();
            &&& post.tag == Tag::First
            &&& post.lock is Clear
            &&& model.chain.len() == 0 ==> post.lock->Clear_0.head == 0
            &&& model.chain.len() > 0 ==> post.lock->Clear_0.head == model.chain[0]
            &&& post.lock->Clear_0.walked.len() == 0
            &&& post.lock->Clear_0.rest == model.chain
            &&& post == (Model { tag: post.tag, lock: post.lock, ..model })
        }),
{
}

/// A walk over the chain to clear it goes past one collector after the other.
pub proof fn law_clear_pass<T, F>(model: Model<T, F>)
    requires
        model.lock is Clear,
        model.lock->Clear_0.rest.len() > 0,
    ensures
        ({
            let post = model.clear_pass();
            let clear = model.lock->Clear_0;
            &&& post.lock is Clear
            &&& post.lock->Clear_0.head == clear.head
            &&& post.lock->Clear_0.walked == clear.walked + seq![clear.rest[0]]
            &&& seq![clear.rest[0]] + post.lock->Clear_0.rest == clear.rest
            &&& post == (Model { lock: post.lock, ..model })
        }),
{
    let clear = model.lock->Clear_0;
    assert(clear.walked.push(clear.rest[0]) =~= clear.walked + seq![clear.rest[0]]);
    assert(seq![clear.rest[0]] + clear.rest.skip(1) =~= clear.rest);
}

/// The chain is unlocked, and a mark that has been set in the meantime stays.
pub proof fn law_unlock<T, F>(model: Model<T, F>)
    ensures
        ({
            let post = model.unlock();
            &&& post.lock is Free
            &&& model.tag == Tag::Both ==> post.tag == Tag::Second
            &&& model.tag == Tag::First ==> post.tag == Tag::Neither
            &&& post == (Model { tag: post.tag, lock: post.lock, ..model })
        }),
        model.lock is Scan ==> ({
            let post = model.scan_advance();
            &&& post.epoch == model.lock->Scan_0.known + 1
            &&& post == (Model { epoch: post.epoch, ..model })
        }),
{
}

/// Setting the mark on the chain leaves the lock alone, and nothing else happens; acceleration sets the
/// mark, and brings the countdown of the thread to zero.
pub proof fn law_mark<T, F>(model: Model<T, F>, c: usize)
    requires
        model.collectors.contains_key(c),
    ensures
        ({
            let post = model.mark();
            &&& model.tag == Tag::Neither ==> post.tag == Tag::Second
            &&& model.tag == Tag::First ==> post.tag == Tag::Both
            &&& model.tag == Tag::Second ==> post.tag == Tag::Second
            &&& model.tag == Tag::Both ==> post.tag == Tag::Both
            &&& post == (Model { tag: post.tag, ..model })
        }),
        ({
            let post = model.accelerate(c);
            &&& post.tag == model.mark().tag
            &&& post.collectors[c] == (CollectorModel {
                next_epoch_update: 0,
                ..model.collectors[c]
            })
            &&& forall|d: usize|
                d != c ==> {
                    &&& #[trigger] post.collectors.contains_key(d)
                        == model.collectors.contains_key(d)
                    &&& post.collectors[d] == model.collectors[d]
                }
            &&& post == (Model { tag: post.tag, collectors: post.collectors, ..model })
        }),
{
}

// Terms.

/// What is said of a collector, and of lists of collectors.
pub proof fn law_collectors<T, F>(
    model: Model<T, F>,
    c: usize,
    list: Seq<usize>,
    collector: CollectorModel,
    x: usize,
    thread: usize,
)
    ensures
        model.all_ready(c, list) == (forall|i: int|
            0 <= i < list.len() ==> model.ready(c, #[trigger] list[i])),
        model.all_invalid(list) == (forall|i: int|
            0 <= i < list.len() ==> model.collectors[#[trigger] list[i]].invalid),
        collector.empty() == (collector.previous.len() == 0 && collector.current.len() == 0
            && collector.next.len() == 0 && collector.garbage.len() == 0),
        collector.holds(x) == (collector.previous.contains(x) || collector.current.contains(x)
            || collector.next.contains(x) || collector.garbage.contains(x)),
        model.registered(c) == model.chain.contains(c),
        model.occupied(c) == (model.collectors.contains_key(c) || model.instances.contains_key(c)),
        model.started(thread, c) == model.current(thread as int, c),
{
}

/// The collectors that stay in the chain after a scan, in the same order, and those that leave it, the
/// last one first.
pub proof fn law_upheld<T, F>(model: Model<T, F>, list: Seq<usize>)
    ensures
        list.len() == 0 ==> model.upheld(list).len() == 0 && model.given_up(list).len() == 0,
        list.len() > 0 && model.collectors[list[0]].invalid ==> {
            &&& model.upheld(list) == model.upheld(list.skip(1))
            &&& model.given_up(list) == model.given_up(list.skip(1)).push(list[0])
        },
        list.len() > 0 && !model.collectors[list[0]].invalid ==> {
            &&& model.upheld(list) == seq![list[0]] + model.upheld(list.skip(1))
            &&& model.given_up(list) == model.given_up(list.skip(1))
        },
{
}

} // verus!

//! What a thread does without getting its first guard or dropping its last one: it leaves the chain
//! and all other threads alone, and what it retires is put in front of what it has retired before.

use crate::epoch;
use crate::model::{Bag, CollectorModel, Model, Payload};
use vstd::prelude::*;

verus! {

/// The number of guards to be dropped until the next scan after so many retirements.
pub open spec fn countdown(next_epoch_update: u8, retirements: int) -> int {
    let start: int = if next_epoch_update > 63 {
        64
    } else {
        next_epoch_update as int
    };
    if retirements == 0 {
        next_epoch_update as int
    } else if start < retirements {
        0
    } else {
        start - retirements
    }
}

impl CollectorModel {
    /// More has been retired, and the next scan may have been made urgent.
    pub open spec fn extends(self, post: Self) -> bool {
        &&& post == CollectorModel {
            current: post.current,
            has_garbage: post.has_garbage,
            next_epoch_update: post.next_epoch_update,
            ..self
        }
        &&& self.current.is_suffix_of(post.current)
        &&& post.next_epoch_update == 0 || post.next_epoch_update == countdown(
            self.next_epoch_update,
            post.current.len() - self.current.len(),
        )
        &&& post.has_garbage == (self.has_garbage || post.current.len() > self.current.len())
    }
}

impl<T, F> Model<T, F> {
    /// The thread of `c` creates instances, deals with strong references, and retires instances.
    /// Each of these, and each strong reference, takes an identifier of its own.
    ///
    /// What is to be destroyed is left open.
    pub open spec fn acts(self, post: Self, c: usize) -> bool {
        &&& post.epoch == self.epoch
        &&& post.tag == self.tag || post.tag == self.mark().tag
            && post.collectors[c].next_epoch_update == 0
        &&& post.chain == self.chain
        &&& post.lock == self.lock
        &&& post.locals == self.locals
        &&& self.tokens <= post.tokens
        &&& post.collectors =~= self.collectors.insert(c, post.collectors[c])
        &&& self.collectors[c].extends(post.collectors[c])
        &&& post.collectors[c].current.len() - self.collectors[c].current.len() <= post.tokens
            - self.tokens
        &&& forall|x: usize| #[trigger]
            self.instances.contains_key(x) ==> {
                &&& post.instances.contains_key(x)
                &&& self.instances[x].retirement is Some ==> post.instances[x] == self.instances[x]
                &&& post.instances[x].body == self.instances[x].body
                &&& post.instances[x].shared == self.instances[x].shared
                &&& post.instances[x].refs.len() - self.instances[x].refs.len() <= post.tokens
                    - self.tokens
                &&& self.instances[x].retirement is None ==> (
                post.instances[x].retirement matches Some(retirement) ==> {
                    &&& retirement.holder == c
                    &&& self.registered(c) ==> retirement.readers == self.sessions()
                })
            }
    }

    /// Nothing but what is to be destroyed differs.
    pub open spec fn alike(self, post: Self) -> bool {
        post == Model { dropped: post.dropped, ..self }
    }

    /// So many items of the garbage of a collector leave the domain.
    pub open spec fn drop_some(self, c: usize, count: nat) -> Self
        decreases count,
    {
        if count == 0 {
            self
        } else {
            self.drop_some(c, (count - 1) as nat).drop_first(c, Bag::Garbage)
        }
    }

    /// The garbage of a collector has left the domain, and has been destroyed. Destructors have
    /// done no more than the thread may do in its own right.
    ///
    /// `log` is what had been destroyed before, and `extended` what has been destroyed since.
    pub open spec fn reclaimed(
        self,
        post: Self,
        c: usize,
        log: Seq<Payload<T, F>>,
        extended: Seq<Payload<T, F>>,
    ) -> bool {
        let reclaimed = self.drop_garbage(c);
        &&& reclaimed.acts(post, c)
        &&& post.dropped == self.dropped
        &&& extended == log + reclaimed.dropped.skip(self.dropped.len() as int)
    }

    /// A destructor has failed after so many items of the garbage of a collector had left the
    /// domain, when the last one of them was being destroyed. What it comprises besides is in
    /// `rest`.
    pub open spec fn interrupted_after(
        self,
        post: Self,
        c: usize,
        count: nat,
        log: Seq<Payload<T, F>>,
        extended: Seq<Payload<T, F>>,
        rest: Seq<Payload<T, F>>,
    ) -> bool {
        let before = self.drop_some(c, (count - 1) as nat);
        let after = self.drop_some(c, count);
        &&& 0 < count <= self.collectors[c].garbage.len()
        &&& post.inv()
        &&& after.acts(post, c)
        &&& post.dropped == self.dropped
        &&& extended + rest == log + after.dropped.skip(self.dropped.len() as int)
        &&& extended.len() > log.len() + before.dropped.len() - self.dropped.len()
    }

    /// See [`Model::interrupted_after`].
    pub open spec fn interrupted(
        self,
        post: Self,
        c: usize,
        log: Seq<Payload<T, F>>,
        extended: Seq<Payload<T, F>>,
        rest: Seq<Payload<T, F>>,
    ) -> bool {
        exists|count: nat| #[trigger]
            self.interrupted_after(post, c, count, log, extended, rest)
    }

    /// A destructor has failed, and what had not left the domain is retired again.
    pub open spec fn thwarted(
        self,
        post: Self,
        c: usize,
        log: Seq<Payload<T, F>>,
        extended: Seq<Payload<T, F>>,
        rest: Seq<Payload<T, F>>,
    ) -> bool {
        exists|failed: Self| #[trigger]
            self.interrupted(failed, c, log, extended, rest) && post == failed.recollect_all(c)
    }

    /// A thread that gets a guard acknowledges an epoch change.
    pub open spec fn reclaims(self, c: usize, collect_garbage: bool) -> bool {
        &&& collect_garbage
        &&& self.collectors[c].num_readers == 0
        &&& self.collectors[c].announcement != epoch::epoch_word(self.epoch)
    }

    /// A thread has got a guard, and what it has reclaimed has been destroyed.
    pub open spec fn opened(
        self,
        post: Self,
        c: usize,
        collect_garbage: bool,
        log: Seq<Payload<T, F>>,
        extended: Seq<Payload<T, F>>,
    ) -> bool {
        if self.reclaims(c, collect_garbage) {
            self.enter(c).announce(c).rotate(c).reclaimed(post, c, log, extended)
        } else {
            post == self.new_guard(c, collect_garbage) && extended == log
        }
    }

    /// A thread has not got a guard, since a destructor has failed. What had not left the domain
    /// is retired again.
    pub open spec fn foiled(
        self,
        post: Self,
        c: usize,
        log: Seq<Payload<T, F>>,
        extended: Seq<Payload<T, F>>,
        rest: Seq<Payload<T, F>>,
    ) -> bool {
        &&& self.reclaims(c, true)
        &&& exists|regained: Self| #[trigger]
            self.enter(c).announce(c).rotate(c).thwarted(regained, c, log, extended, rest) && post
                == regained.end_guard(c, self.tokens)
    }

    /// A collector outside the chain is emptied over and over, since destructors retire more into
    /// it: what it is like before each pass, and after the last one.
    pub open spec fn passes(states: Seq<Self>, c: usize) -> bool {
        forall|i: int, j: int|
            0 <= i && j == i + 1 && j < states.len() ==> {
                &&& !(#[trigger] states[i]).collectors[c].empty()
                &&& states[j].inv()
                &&& states[i].clear(c).acts(#[trigger] states[j], c)
                &&& states[j].dropped == states[i].dropped
            }
    }

    /// What leaves the domain with the items of a collector.
    pub open spec fn estate_of(self, c: usize) -> Seq<Payload<T, F>> {
        self.clear(c).dropped.skip(self.dropped.len() as int)
    }

    /// What leaves the domain in all the passes.
    pub open spec fn estates_of(states: Seq<Self>, c: usize) -> Seq<Payload<T, F>>
        decreases states.len(),
    {
        if states.len() <= 1 {
            Seq::empty()
        } else {
            Self::estates_of(states.drop_last(), c) + states[states.len() - 2].estate_of(c)
        }
    }

    /// A collector outside the chain has been emptied in several passes.
    ///
    /// `log` is what had been destroyed before, and `extended` what has been destroyed since, or
    /// would have been unless a destructor had failed.
    pub open spec fn cleared_in(
        self,
        post: Self,
        states: Seq<Self>,
        c: usize,
        log: Seq<Payload<T, F>>,
        extended: Seq<Payload<T, F>>,
    ) -> bool {
        &&& states.len() > 0
        &&& states[0] == self
        &&& states.last() == post
        &&& Self::passes(states, c)
        &&& extended == log + Self::estates_of(states, c)
    }

    /// See [`Model::cleared_in`].
    pub open spec fn cleared_out(
        self,
        post: Self,
        c: usize,
        log: Seq<Payload<T, F>>,
        extended: Seq<Payload<T, F>>,
    ) -> bool {
        exists|states: Seq<Self>| #[trigger] self.cleared_in(post, states, c, log, extended)
    }

    /// A thread has terminated. What has been reclaimed in the course of this has been destroyed,
    /// and so has all that destructors have retired.
    pub open spec fn exited(
        self,
        post: Self,
        thread: int,
        temporary: usize,
        log: Seq<Payload<T, F>>,
        extended: Seq<Payload<T, F>>,
    ) -> bool {
        let begun = self.begin_exit(thread, temporary);
        let swept = begun.clear_chain();
        let destroyed = log + swept.dropped.skip(self.dropped.len() as int);
        exists|handed: Self, emptied: Self|
            {
                &&& handed.inv()
                &&& if begun.lock is Free && begun.all_invalid(begun.chain) {
                    swept.acts(handed, temporary) && handed.dropped == self.dropped
                } else {
                    handed == swept.mark()
                }
                &&& #[trigger] handed.cleared_out(emptied, temporary, destroyed, extended)
                &&& emptied.collectors[temporary].empty()
                &&& post == emptied.finish_exit(thread)
            }
    }

    /// A destructor has failed while a thread terminated. The thread has kept its temporary
    /// collector.
    ///
    /// `log` is what had been destroyed before, and `extended` what has been destroyed since, or
    /// would have been by now.
    pub open spec fn aborted(
        self,
        post: Self,
        thread: int,
        log: Seq<Payload<T, F>>,
        extended: Seq<Payload<T, F>>,
    ) -> bool {
        let temporary = post.locals[thread];
        let begun = self.begin_exit(thread, temporary);
        let swept = begun.clear_chain();
        let all = begun.lock is Free && begun.all_invalid(begun.chain);
        let destroyed = log + swept.dropped.skip(self.dropped.len() as int);
        ||| all && swept.acts(post, temporary) && extended == destroyed
        ||| exists|handed: Self|
            {
                &&& handed.inv()
                &&& if all {
                    swept.acts(handed, temporary) && handed.dropped == self.dropped
                } else {
                    handed == swept.mark()
                }
                &&& #[trigger] handed.cleared_out(post, temporary, destroyed, extended)
            }
    }

    /// Whatever a thread does in its own right, the same threads read as before.
    pub proof fn lemma_acts_sessions(self, post: Self, c: usize)
        requires
            self.collectors.contains_key(c),
            self.acts(post, c),
        ensures
            post.sessions() == self.sessions(),
            forall|d: usize| #[trigger] post.pinned(d) == self.pinned(d),
            forall|d: usize| #[trigger] post.registered(d) == self.registered(d),
            forall|d: usize| #[trigger]
                post.collectors[d].session == self.collectors[d].session || !self.pinned(d),
    {
        assert forall|d: usize| #[trigger] post.pinned(d) == self.pinned(d) by {
            assert(post.registered(d) == self.registered(d));
        }
        assert forall|s: nat| post.sessions().contains(s) == self.sessions().contains(s) by {
            if post.sessions().contains(s) {
                let d = choose|d: usize| #[trigger]
                    post.pinned(d) && post.collectors[d].session == s;
                assert(self.pinned(d));
            }
            if self.sessions().contains(s) {
                let d = choose|d: usize| #[trigger]
                    self.pinned(d) && self.collectors[d].session == s;
                assert(post.pinned(d));
            }
        }
        assert(post.sessions() =~= self.sessions());
    }

    /// A thread may do nothing, or leave it to others to destroy something.
    pub proof fn lemma_acts_alike(self, post: Self, c: usize)
        requires
            self.collectors.contains_key(c),
            self.alike(post),
        ensures
            self.acts(post, c),
    {
        let current = self.collectors[c].current;
        assert(current =~= current.skip(0));
    }

    /// Whatever a thread does in its own right may be done in two steps.
    pub proof fn lemma_acts_transitive(self, mid: Self, post: Self, c: usize)
        requires
            self.collectors.contains_key(c),
            self.acts(mid, c),
            mid.acts(post, c),
        ensures
            self.acts(post, c),
    {
        self.lemma_acts_sessions(mid, c);
        let first = self.collectors[c].current;
        let second = mid.collectors[c].current;
        let third = post.collectors[c].current;
        assert(first.is_suffix_of(third)) by {
            assert(first =~= third.skip(third.len() - first.len())) by {
                assert forall|i: int| 0 <= i < first.len() implies first[i] == third[third.len()
                    - first.len() + i] by {
                    let k = second.len() - first.len() + i;
                    assert(second.skip(second.len() - first.len())[i] == second[k]);
                    assert(third.skip(third.len() - second.len())[k] == third[third.len()
                        - second.len() + k]);
                }
            }
        }
    }

    /// Whatever a thread does in its own right, what others read stays in place.
    pub proof fn lemma_spares_acts(self, post: Self, c: usize)
        requires
            self.collectors.contains_key(c),
            self.registered(c),
            self.acts(post, c),
        ensures
            self.spares(post),
    {
        self.lemma_acts_sessions(post, c);
        assert forall|d: usize| #[trigger]
            post.pinned(d) && post.collectors[d].session < self.tokens implies self.same_session(
            post,
            d,
        ) by {
            assert(self.pinned(d));
        }
        assert forall|d: usize, x: usize| #[trigger]
            self.protects(d, x) && self.same_session(post, d) implies {
            &&& post.protects(d, x)
            &&& post.instances[x].body == self.instances[x].body
            &&& self.instances[x].retirement is Some ==> post.instances[x].retirement
                == self.instances[x].retirement
        } by {
            assert(self.pinned(d));
            assert(self.sessions().contains(self.collectors[d].session));
        }
    }

    /// Whatever a thread does in its own right, what others read of what had been retired stays in
    /// place.
    pub proof fn lemma_spares_retired_acts(self, post: Self, c: usize)
        requires
            self.collectors.contains_key(c),
            self.acts(post, c),
        ensures
            self.spares_retired(post),
    {
        self.lemma_acts_sessions(post, c);
        assert forall|d: usize| #[trigger]
            post.pinned(d) && post.collectors[d].session < self.tokens implies self.same_session(
            post,
            d,
        ) by {
            assert(self.pinned(d));
        }
    }

    /// What had been retired is under the same items as before.
    proof fn lemma_under_acts(self, post: Self, c: usize, a: usize, list: Seq<usize>)
        requires
            self.structure(),
            post.structure(),
            self.collectors.contains_key(c),
            self.collectors[c].retirement is None,
            self.acts(post, c),
            self.retirement(a) is Some,
        ensures
            post.retirement(a) == self.retirement(a),
            self.under(a, list) == post.under(a, list),
        decreases self.tokens - self.retirement(a)->0.serial,
    {
        let retirement = self.retirement(a)->0;
        let h = retirement.holder;
        assert(self.occupied(a));
        assert(post.retirement(a) == self.retirement(a)) by {
            if self.collectors.contains_key(a) {
                assert(post.collectors.contains_key(a));
            } else {
                assert(self.instances.contains_key(a));
                assert(post.instances.contains_key(a));
                assert(post.occupied(a));
            }
        }
        assert(self.collectors.contains_key(h) && self.collectors[h].holds(a));
        assert(self.keeps(h, a));
        assert(post.collectors.contains_key(h));
        if self.collectors[h].retirement is Some {
            assert(h != c);
            assert(self.retirement(h) is Some);
            self.lemma_under_acts(post, c, h, list);
        }
    }

    /// What is about to be destroyed does not depend on what the thread does in its own right.
    pub proof fn lemma_contents_acts(self, post: Self, c: usize, list: Seq<usize>, bound: nat)
        requires
            self.structure(),
            post.structure(),
            self.collectors.contains_key(c),
            self.collectors[c].retirement is None,
            self.acts(post, c),
            forall|x: usize| #[trigger] list.contains(x) ==> self.retirement(x) is Some,
        ensures
            post.contents(list, bound) == self.contents(list, bound),
    {
        assert forall|a: usize| #[trigger] self.under(a, list) && self.occupied(a) implies {
            &&& self.instances.contains_key(a) == post.instances.contains_key(a)
            &&& self.collectors.contains_key(a) == post.collectors.contains_key(a)
            &&& self.instances.contains_key(a) ==> self.instances[a] == post.instances[a]
            &&& self.collectors.contains_key(a) ==> self.collectors[a] == post.collectors[a]
        } by {
            assert(self.retirement(a) is Some);
            if self.instances.contains_key(a) {
                assert(post.instances.contains_key(a));
                assert(post.occupied(a));
            } else {
                assert(a != c);
                assert(post.collectors.contains_key(a));
                assert(post.occupied(a));
            }
        }
        self.lemma_contents_frame(post, list, bound);
    }

    /// It makes no difference whether something is reclaimed before or after the thread does
    /// something else in its own right.
    #[verifier::spinoff_prover]
    pub proof fn lemma_drop_first_acts(self, post: Self, c: usize)
        requires
            self.inv(),
            post.inv(),
            self.collectors.contains_key(c),
            self.collectors[c].retirement is None,
            self.acts(post, c),
            self.collectors[c].garbage.len() > 0,
        ensures
            self.drop_first(c, Bag::Garbage).acts(post.drop_first(c, Bag::Garbage), c),
            post.drop_first(c, Bag::Garbage).dropped.skip(post.dropped.len() as int)
                == self.drop_first(c, Bag::Garbage).dropped.skip(self.dropped.len() as int),
    {
        let bag = Bag::Garbage;
        let x = self.collectors[c].garbage[0];
        let gone = seq![x];
        let a = self.drop_first(c, bag);
        let b = post.drop_first(c, bag);
        assert(gone[0] == x);
        assert(gone.contains(x));
        assert(self.collectors[c].garbage.contains(x));
        assert(self.collectors[c].holds(x));
        assert(self.keeps(c, x));
        assert(post.collectors.contains_key(c));
        self.lemma_drop_first(c, bag);
        post.lemma_drop_first(c, bag);
        self.lemma_drop_first_removes(c, bag);
        post.lemma_drop_first_removes(c, bag);
        self.lemma_contents_acts(post, c, gone, self.rank(c));
        self.lemma_drop_first_contents(c, bag);
        post.lemma_drop_first_contents(c, bag);
        assert(post.collectors[c].holds(x));
        assert(post.keeps(c, x));
        assert forall|y: usize| #[trigger] gone.contains(y) implies y == x by {}
        post.lemma_contents_bound(gone, self.rank(c), post.rank(c));
        assert(a.dropped.skip(self.dropped.len() as int) =~= self.contents(gone, self.rank(c)));
        assert(b.dropped.skip(post.dropped.len() as int) =~= post.contents(gone, post.rank(c)));
        assert forall|y: usize| self.retirement(y) is Some implies #[trigger] a.occupied(y)
            == b.occupied(y) by {
            self.lemma_under_acts(post, c, y, gone);
            assert(self.occupied(y));
            assert(post.occupied(y)) by {
                if self.instances.contains_key(y) {
                    assert(post.instances.contains_key(y));
                } else {
                    assert(post.collectors.contains_key(y));
                }
            }
        }
        assert forall|y: usize| self.occupied(y) && self.retirement(y) is None implies #[trigger] a.occupied(
            y,
        ) && b.occupied(y) by {
            assert(!self.under(y, gone));
            assert(post.occupied(y)) by {
                if self.instances.contains_key(y) {
                    assert(post.instances.contains_key(y));
                } else {
                    assert(post.collectors.contains_key(y));
                }
            }
            assert(!post.under(y, gone)) by {
                if post.under(y, gone) {
                    let h = post.retirement(y)->0.holder;
                    if self.instances.contains_key(y) {
                        assert(post.instances[y].retirement is Some);
                        assert(h == c);
                    } else {
                        assert(post.collectors.contains_key(y));
                    }
                }
            }
        }
        assert forall|d: usize| #[trigger] a.collectors.contains_key(d) == b.collectors.contains_key(
            d,
        ) by {
            assert(self.collectors.contains_key(d) == post.collectors.contains_key(d));
            if self.collectors.contains_key(d) {
                assert(self.occupied(d));
                assert(post.occupied(d));
                assert(a.occupied(d) == b.occupied(d));
                assert(!self.instances.contains_key(d) && !post.instances.contains_key(d));
            }
        }
        assert(b.collectors =~= a.collectors.insert(c, b.collectors[c]));
        assert(a.sessions() == self.sessions()) by {
            assert forall|d: usize| #[trigger] a.pinned(d) == self.pinned(d) by {
                assert(a.registered(d) == self.registered(d));
                if self.registered(d) {
                    assert(self.collectors.contains_key(d));
                    assert(a.collectors.contains_key(d));
                }
            }
            assert forall|s: nat| a.sessions().contains(s) == self.sessions().contains(s) by {
                if a.sessions().contains(s) {
                    let d = choose|d: usize| #[trigger]
                        a.pinned(d) && a.collectors[d].session == s;
                    assert(self.pinned(d));
                }
                if self.sessions().contains(s) {
                    let d = choose|d: usize| #[trigger]
                        self.pinned(d) && self.collectors[d].session == s;
                    assert(a.pinned(d));
                }
            }
            assert(a.sessions() =~= self.sessions());
        }
        assert forall|y: usize| #[trigger] a.instances.contains_key(y) implies {
            &&& b.instances.contains_key(y)
            &&& b.instances[y] == post.instances[y]
            &&& a.instances[y] == self.instances[y]
            &&& self.instances.contains_key(y)
        } by {
            assert(self.instances.contains_key(y));
            assert(post.instances.contains_key(y));
            assert(self.occupied(y) && post.occupied(y) && a.occupied(y));
            assert(b.occupied(y));
            assert(!post.collectors.contains_key(y));
            assert(!b.collectors.contains_key(y));
        }
        assert(a.registered(c) == self.registered(c));
    }

    /// A thread that gets a guard adds no strong references but those that destructors add.
    pub proof fn lemma_opened_refs(
        self,
        post: Self,
        c: usize,
        collect_garbage: bool,
        log: Seq<Payload<T, F>>,
        extended: Seq<Payload<T, F>>,
        x: usize,
    )
        requires
            self.inv(),
            self.poised(c),
            self.collectors[c].num_readers < u32::MAX,
            self.opened(post, c, collect_garbage, log, extended),
            self.instances.contains_key(x),
            self.instances[x].retirement is None,
        ensures
            post.instances.contains_key(x),
            post.instances[x].refs.len() - self.instances[x].refs.len() <= post.tokens - (
            self.tokens + 1),
    {
        self.lemma_respects_new_guard(c, collect_garbage);
        let guarded = self.new_guard(c, collect_garbage);
        assert(guarded.instances[x] == self.instances[x]);
    }

    /// There is nothing to be cleared in a collector that keeps nothing.
    pub proof fn lemma_clear_empty(self, c: usize)
        ensures
            self.collectors[c].previous.len() == 0 && self.collectors[c].current.len() == 0
                && self.collectors[c].next.len() == 0 ==> self.clear(c) == self,
    {
    }

    /// What is reclaimed of a collector does not depend on what is left to be destroyed.
    pub proof fn lemma_alike_drop_bag(self, post: Self, c: usize, bag: Bag, bound: nat)
        requires
            self.alike(post),
        ensures
            self.drop_bag(c, bag, bound).alike(post.drop_bag(c, bag, bound)),
        decreases bound, 0nat, self.collectors[c].bag(bag).len(),
    {
        let list = self.collectors[c].bag(bag);
        if list.len() > 0 {
            let x = list[0];
            let nested = self.collectors.contains_key(x) && self.rank(x) < bound;
            let emptied = if nested {
                self.drop_bags(x, self.rank(x))
            } else {
                self
            };
            let other = if nested {
                post.drop_bags(x, post.rank(x))
            } else {
                post
            };
            if nested {
                self.lemma_alike_drop_bags(post, x, self.rank(x));
            }
            let discarded = emptied.discard(c, bag);
            assert(discarded.alike(other.discard(c, bag)));
            if discarded.collectors[c].bag(bag).len() < list.len() {
                discarded.lemma_alike_drop_bag(other.discard(c, bag), c, bag, bound);
            }
        }
    }

    /// See [`Model::lemma_alike_drop_bag`].
    pub proof fn lemma_alike_drop_bags(self, post: Self, c: usize, bound: nat)
        requires
            self.alike(post),
        ensures
            self.drop_bags(c, bound).alike(post.drop_bags(c, bound)),
        decreases bound, 1nat, 0nat,
    {
        self.lemma_alike_drop_bag(post, c, Bag::Previous, bound);
        let first = self.drop_bag(c, Bag::Previous, bound);
        let other = post.drop_bag(c, Bag::Previous, bound);
        first.lemma_alike_drop_bag(other, c, Bag::Current, bound);
        first.drop_bag(c, Bag::Current, bound).lemma_alike_drop_bag(
            other.drop_bag(c, Bag::Current, bound),
            c,
            Bag::Next,
            bound,
        );
    }

    /// See [`Model::lemma_alike_drop_bag`].
    pub proof fn lemma_alike_drop_first(self, post: Self, c: usize, bag: Bag)
        requires
            self.alike(post),
        ensures
            self.drop_first(c, bag).alike(post.drop_first(c, bag)),
    {
        let x = self.collectors[c].bag(bag)[0];
        if self.collectors.contains_key(x) {
            self.lemma_alike_drop_bags(post, x, self.rank(x));
        }
    }

    /// So many items of the garbage of a collector may leave the domain.
    pub proof fn lemma_drop_some(self, c: usize, count: nat)
        requires
            self.inv(),
            self.collectors.contains_key(c),
            count <= self.collectors[c].garbage.len(),
        ensures
            self.drop_some(c, count).inv(),
            self.drop_some(c, count).chain == self.chain,
            self.drop_some(c, count).collectors.contains_key(c),
            self.drop_some(c, count).collectors[c] =~= (CollectorModel {
                garbage: self.collectors[c].garbage.skip(count as int),
                ..self.collectors[c]
            }),
        decreases count,
    {
        let garbage = self.collectors[c].garbage;
        if count > 0 {
            let before = self.drop_some(c, (count - 1) as nat);
            self.lemma_drop_some(c, (count - 1) as nat);
            before.lemma_drop_first(c, Bag::Garbage);
            assert(garbage.skip(count - 1).skip(1) =~= garbage.skip(count as int));
        } else {
            assert(garbage.skip(0) =~= garbage);
        }
    }

    /// A thread terminates, and destructors make no use of the domain.
    pub proof fn lemma_exit_alike(self, thread: int, temporary: usize, handed: Self, emptied: Self)
        requires
            ({
                let begun = self.begin_exit(thread, temporary);
                if begun.lock is Free && begun.all_invalid(begun.chain) {
                    begun.clear_chain().alike(handed)
                } else {
                    begun.clear_chain().mark().alike(handed)
                }
            }),
            handed.locals[thread] == temporary,
            handed.clear(temporary).alike(emptied),
            emptied.locals[thread] == temporary,
            emptied.collectors[temporary].empty(),
        ensures
            self.exit(thread, temporary).alike(emptied.finish_exit(thread)),
    {
        let begun = self.begin_exit(thread, temporary);
        let marked = if begun.lock is Free && begun.all_invalid(begun.chain) {
            begun.clear_chain()
        } else {
            begun.clear_chain().mark()
        };
        marked.lemma_alike_drop_bags(handed, temporary, marked.rank(temporary));
        emptied.lemma_clear_empty(temporary);
    }
}

} // verus!

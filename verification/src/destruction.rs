//! Destroying what a collector keeps leaves all else as it is.

use crate::model::{Bag, ClearModel, CollectorModel, Lock, Model};
use vstd::prelude::*;

verus! {

impl CollectorModel {
    /// The collector keeps nothing.
    pub open spec fn empty(self) -> bool {
        &&& self.previous.len() == 0
        &&& self.current.len() == 0
        &&& self.next.len() == 0
        &&& self.garbage.len() == 0
    }

    /// A list without its first item.
    pub proof fn lemma_shortened(self, bag: Bag)
        requires
            self.distinct(),
            self.bag(bag).len() > 0,
        ensures
            self.with_bag(bag, self.bag(bag).skip(1)).distinct(),
            self.holds(self.bag(bag)[0]),
            forall|y: usize| #[trigger]
                self.with_bag(bag, self.bag(bag).skip(1)).holds(y) == (self.holds(y) && y
                    != self.bag(bag)[0]),
            forall|y: usize| #[trigger]
                self.bag(bag).skip(1).contains(y) ==> self.bag(bag).contains(y),
    {
        let list = self.bag(bag);
        let after = self.with_bag(bag, list.skip(1));
        assert(list.contains(list[0]));
        assert forall|y: usize| #[trigger] list.skip(1).contains(y) == (list.contains(y) && y
            != list[0]) by {
            if list.skip(1).contains(y) {
                let i = list.skip(1).index_of(y);
                assert(list[i + 1] == y);
            }
            if list.contains(y) && y != list[0] {
                let i = list.index_of(y);
                assert(list.skip(1)[i - 1] == y);
            }
        }
    }
}

impl<T, F> Model<T, F> {
    /// At most what was retired before `bound` is gone, and nothing but `c` has changed.
    pub open spec fn only_removes(self, post: Self, c: usize, bound: nat) -> bool {
        &&& post.epoch == self.epoch
        &&& post.tag == self.tag
        &&& post.chain == self.chain
        &&& post.lock == self.lock
        &&& post.locals == self.locals
        &&& post.tokens == self.tokens
        &&& self.dropped.is_prefix_of(post.dropped)
        &&& forall|d: usize| #[trigger]
            post.collectors.contains_key(d) ==> self.collectors.contains_key(d) && (d == c
                || post.collectors[d] == self.collectors[d])
        &&& forall|d: usize| #[trigger]
            self.collectors.contains_key(d) && !post.collectors.contains_key(d) ==> d != c
                && self.collectors[d].retirement is Some
                && self.collectors[d].retirement->0.serial < bound
        &&& forall|x: usize| #[trigger]
            post.instances.contains_key(x) ==> self.instances.contains_key(x) && post.instances[x]
                == self.instances[x]
        &&& forall|x: usize| #[trigger]
            self.instances.contains_key(x) && !post.instances.contains_key(x)
                ==> self.instances[x].retirement is Some && self.instances[x].retirement->0.serial
                < bound
    }

    /// The first item of a list, if it keeps nothing itself, may leave the domain.
    pub proof fn lemma_discard(self, c: usize, bag: Bag)
        requires
            self.registered(c) ==> bag == Bag::Garbage,
            self.steady(),
            self.collectors.contains_key(c),
            self.collectors[c].bag(bag).len() > 0,
            self.collectors.contains_key(self.collectors[c].bag(bag)[0])
                ==> self.collectors[self.collectors[c].bag(bag)[0]].empty(),
        ensures
            self.discard(c, bag).steady(),
            self.outside_ok() ==> self.discard(c, bag).outside_ok(),
            self.only_removes(self.discard(c, bag), c, self.rank(c)),
            self.discard(c, bag).collectors.contains_key(c),
            self.discard(c, bag).collectors[c] == self.collectors[c].with_bag(
                bag,
                self.collectors[c].bag(bag).skip(1),
            ),
    {
        let post = self.discard(c, bag);
        let x = self.collectors[c].bag(bag)[0];
        self.collectors[c].lemma_shortened(bag);
        assert(self.collectors[c].holds(x));
        assert(self.keeps(c, x));
        assert(self.occupied(x));
        assert(x != c);
        assert(!self.registered(x));
        assert forall|a: usize| #[trigger] post.occupied(a) == (a != x && self.occupied(a)) by {}
        assert forall|a: usize| #[trigger] post.registered(a) == self.registered(a) by {}
        assert forall|a: usize| a != x implies #[trigger] post.retirement(a) == self.retirement(
            a,
        ) by {}
        assert(post.retirement(x) is None);
        assert forall|a: usize| #[trigger] post.pinned(a) == self.pinned(a) by {}
        assert forall|d: usize, y: usize|
            post.collectors.contains_key(d) && #[trigger] post.collectors[d].holds(
                y,
            ) implies post.keeps(d, y) && post.stamp_ok(d, y) by {
            assert(self.collectors[d].holds(y));
            assert(self.keeps(d, y));
            assert(self.stamp_ok(d, y));
            assert(y != x);
        }
        assert(post.space_ok());
        assert(post.chain_ok());
        assert(post.bags_ok());
        assert(post.held_ok()) by {
            assert forall|a: usize| (#[trigger] post.retirement(a)) is Some implies {
                let retirement = post.retirement(a)->0;
                &&& post.collectors.contains_key(retirement.holder)
                &&& post.collectors[retirement.holder].holds(a)
                &&& retirement.serial < post.tokens
            } by {
                assert(self.retirement(a) is Some);
                assert(self.collectors[self.retirement(a)->0.holder].holds(a));
            }
        }
        assert(post.instances_ok());
        assert(post.epochs_ok()) by {
            assert(self.collectors[c].local_ok());
        }
        assert(post.stamps_ok()) by {
            assert forall|a: usize| (#[trigger] post.retirement(a)) is Some implies post.retirement(
                a,
            )->0.stamp <= post.epoch by {
                assert(self.retirement(a) is Some);
            }
        }
        assert(post.readers_ok()) by {
            assert forall|a: usize, s: nat|
                (#[trigger] post.retirement(a)) is Some && #[trigger] post.retirement(
                    a,
                )->0.readers.contains(s) implies s < post.tokens by {
                assert(self.retirement(a) is Some);
            }
            assert forall|a: usize, d: usize|
                (#[trigger] post.retirement(a)) is Some && #[trigger] post.pinned(d)
                    && post.retirement(a)->0.readers.contains(
                    post.collectors[d].session,
                ) implies post.collectors[d].seen <= post.retirement(a)->0.stamp by {
                assert(self.retirement(a) is Some);
                assert(self.pinned(d));
            }
        }
        assert(post.lock_ok()) by {
            match self.lock {
                Lock::Scan(scan) => {
                    assert(post.passed(scan.rest) == self.passed(scan.rest));
                    assert forall|d: usize| #[trigger]
                        post.passed(scan.rest).contains(d) implies post.caught_up(
                        d,
                        scan.known,
                    ) by {
                        assert(self.passed(scan.rest).contains(d));
                        assert(self.caught_up(d, scan.known));
                        assert(self.registered(d));
                    }
                },
                Lock::Clear(clear) => {
                    self.lemma_walked(clear);
                    assert forall|d: usize| #[trigger]
                        clear.walked.contains(d) implies post.collectors[d].invalid by {
                        assert(self.registered(d));
                    }
                },
                Lock::Free => {},
            }
        }
        assert(post.locals_ok());
        if self.outside_ok() {
            assert forall|a: usize|
                (#[trigger] post.retirement(a)) is Some && !post.registered(
                    post.retirement(a)->0.holder,
                ) && post.collectors[post.retirement(a)->0.holder].retirement is None implies
                post.retirement(a)->0.readers =~= Set::empty() && post.instances.contains_key(a) by {
                assert(self.retirement(a) is Some);
                assert(self.collectors[self.retirement(a)->0.holder].holds(a));
            }
        }
    }

    /// The collectors that a clearing thread went past are in the chain.
    pub proof fn lemma_walked(self, clear: ClearModel)
        requires
            self.clear_ok(clear),
        ensures
            forall|d: usize| #[trigger] clear.walked.contains(d) ==> self.registered(d),
    {
        let tail = clear.walked + clear.rest;
        assert forall|d: usize| #[trigger] clear.walked.contains(d) implies self.registered(d) by {
            let i = clear.walked.index_of(d);
            assert(tail[i] == d);
            assert(self.chain[self.chain.len() - tail.len() + i] == d);
        }
    }

    /// What two steps remove, one after the other.
    proof fn lemma_removes_transitive(
        self,
        mid: Self,
        post: Self,
        x: usize,
        rank: nat,
        c: usize,
        bound: nat,
    )
        requires
            self.only_removes(mid, x, rank),
            mid.only_removes(post, c, bound),
            rank <= bound,
            mid.collectors.contains_key(c),
            x == c || !post.collectors.contains_key(x) && self.collectors[x].retirement is Some
                && self.collectors[x].retirement->0.serial < bound,
        ensures
            self.only_removes(post, c, bound),
    {
        assert(self.dropped.is_prefix_of(post.dropped));
        assert forall|d: usize| #[trigger]
            self.collectors.contains_key(d) && !post.collectors.contains_key(d) implies d != c
            && self.collectors[d].retirement is Some && self.collectors[d].retirement->0.serial
            < bound by {
            if mid.collectors.contains_key(d) && d != x {
                assert(mid.collectors[d] == self.collectors[d]);
            }
        }
        assert forall|y: usize| #[trigger]
            self.instances.contains_key(y) && !post.instances.contains_key(
                y,
            ) implies self.instances[y].retirement is Some
            && self.instances[y].retirement->0.serial < bound by {
            if mid.instances.contains_key(y) {
                assert(mid.instances[y] == self.instances[y]);
            }
        }
    }

    /// A list may leave the domain.
    #[verifier::spinoff_prover]
    #[verifier::rlimit(40)]
    pub proof fn lemma_drop_bag(self, c: usize, bag: Bag, bound: nat)
        requires
            self.registered(c) ==> bag == Bag::Garbage,
            self.steady(),
            self.collectors.contains_key(c),
            bound == self.rank(c),
        ensures
            self.drop_bag(c, bag, bound).steady(),
            self.outside_ok() ==> self.drop_bag(c, bag, bound).outside_ok(),
            self.only_removes(self.drop_bag(c, bag, bound), c, bound),
            self.drop_bag(c, bag, bound).collectors.contains_key(c),
            self.drop_bag(c, bag, bound).collectors[c] =~= self.collectors[c].with_bag(
                bag,
                Seq::empty(),
            ),
        decreases bound, 0nat, self.collectors[c].bag(bag).len(),
    {
        let list = self.collectors[c].bag(bag);
        if list.len() == 0 {
            assert(list =~= Seq::empty());
        } else {
            let x = list[0];
            self.collectors[c].lemma_shortened(bag);
            assert(self.collectors[c].holds(x));
            assert(self.keeps(c, x));
            let emptied = if self.collectors.contains_key(x) && self.rank(x) < bound {
                self.drop_bags(x, self.rank(x))
            } else {
                self
            };
            if self.collectors.contains_key(x) {
                assert(self.rank(x) < bound);
                self.lemma_drop_bags(x, self.rank(x));
                assert(self.collectors[x].invalid);
            }
            assert(emptied.collectors.contains_key(c));
            assert(emptied.collectors[c] == self.collectors[c]);
            emptied.lemma_discard(c, bag);
            let discarded = emptied.discard(c, bag);
            assert(discarded.collectors[c].bag(bag) =~= list.skip(1));
            assert(discarded.rank(c) == bound);
            assert(self.only_removes(discarded, c, bound)) by {
                if self.collectors.contains_key(x) {
                    self.lemma_removes_transitive(emptied, discarded, x, self.rank(x), c, bound);
                }
            }
            discarded.lemma_drop_bag(c, bag, bound);
            self.lemma_removes_transitive(
                discarded,
                discarded.drop_bag(c, bag, bound),
                c,
                bound,
                c,
                bound,
            );
        }
    }

    /// All that a collector keeps may leave the domain.
    pub proof fn lemma_drop_bags(self, c: usize, bound: nat)
        requires
            !self.registered(c),
            self.steady(),
            self.collectors.contains_key(c),
            bound == self.rank(c),
        ensures
            self.drop_bags(c, bound).steady(),
            self.outside_ok() ==> self.drop_bags(c, bound).outside_ok(),
            self.only_removes(self.drop_bags(c, bound), c, bound),
            self.drop_bags(c, bound).collectors.contains_key(c),
            self.drop_bags(c, bound).collectors[c] =~= (CollectorModel {
                previous: Seq::empty(),
                current: Seq::empty(),
                next: Seq::empty(),
                ..self.collectors[c]
            }),
        decreases bound, 1nat, 0nat,
    {
        self.lemma_drop_bag(c, Bag::Previous, bound);
        let first = self.drop_bag(c, Bag::Previous, bound);
        first.lemma_drop_bag(c, Bag::Current, bound);
        let second = first.drop_bag(c, Bag::Current, bound);
        second.lemma_drop_bag(c, Bag::Next, bound);
        self.lemma_removes_transitive(first, second, c, bound, c, bound);
        self.lemma_removes_transitive(
            second,
            second.drop_bag(c, Bag::Next, bound),
            c,
            bound,
            c,
            bound,
        );
    }

    /// A list leaves the domain item by item.
    pub proof fn lemma_drop_first(self, c: usize, bag: Bag)
        requires
            self.registered(c) ==> bag == Bag::Garbage,
            self.steady(),
            self.collectors.contains_key(c),
            self.collectors[c].bag(bag).len() > 0,
        ensures
            self.drop_bag(c, bag, self.rank(c)) == self.drop_first(c, bag).drop_bag(
                c,
                bag,
                self.rank(c),
            ),
            self.drop_first(c, bag).steady(),
            self.outside_ok() ==> self.drop_first(c, bag).outside_ok(),
            self.only_removes(self.drop_first(c, bag), c, self.rank(c)),
            self.drop_first(c, bag).collectors.contains_key(c),
            self.drop_first(c, bag).collectors[c] == self.collectors[c].with_bag(
                bag,
                self.collectors[c].bag(bag).skip(1),
            ),
            self.drop_first(c, bag).rank(c) == self.rank(c),
            ({
                let x = self.collectors[c].bag(bag)[0];
                &&& self.collectors.contains_key(x) ==> {
                    &&& self.rank(x) < self.rank(c)
                    &&& self.clear(x).steady()
                    &&& self.clear(x).collectors.contains_key(c)
                    &&& self.clear(x).collectors[c] == self.collectors[c]
                    &&& self.clear(x).collectors.contains_key(x)
                    &&& self.clear(x).collectors[x].empty()
                }
            }),
    {
        let x = self.collectors[c].bag(bag)[0];
        self.collectors[c].lemma_shortened(bag);
        assert(self.collectors[c].holds(x));
        assert(self.keeps(c, x));
        if self.collectors.contains_key(x) {
            self.lemma_drop_bags(x, self.rank(x));
            assert(self.collectors[x].invalid);
            self.clear(x).lemma_discard(c, bag);
        } else {
            self.lemma_discard(c, bag);
        }
    }
}

} // verus!

//! A thread that reads keeps what it may read from being reclaimed.

use crate::model::{Bag, CollectorModel, Lock, Model};
use vstd::prelude::*;

verus! {

impl<T, F> Model<T, F> {
    /// The thread of the collector has been reading since before the instance was retired, if it
    /// was retired at all.
    pub open spec fn protects(self, c: usize, x: usize) -> bool {
        &&& self.pinned(c)
        &&& self.instances.contains_key(x)
        &&& self.instances[x].retirement matches Some(retirement) ==> retirement.readers.contains(
            self.collectors[c].session,
        )
    }

    /// The thread of the collector is in the same session as before.
    pub open spec fn same_session(self, post: Self, c: usize) -> bool {
        &&& self.pinned(c)
        &&& post.pinned(c)
        &&& post.collectors[c].session == self.collectors[c].session
    }

    /// Whatever a thread protects stays in place, unchanged, for as long as the thread goes on
    /// reading, and the epoch does not go back.
    pub open spec fn spares(self, post: Self) -> bool {
        &&& self.tokens <= post.tokens
        &&& self.epoch <= post.epoch
        &&& forall|c: usize| #[trigger]
            post.pinned(c) && post.collectors[c].session < self.tokens ==> self.same_session(
                post,
                c,
            )
        &&& forall|c: usize, x: usize| #[trigger]
            self.protects(c, x) && self.same_session(post, c) ==> {
                &&& post.protects(c, x)
                &&& post.instances[x].body == self.instances[x].body
                &&& self.instances[x].retirement is Some ==> post.instances[x].retirement
                    == self.instances[x].retirement
            }
    }

    /// The same of what had been retired at the outset: whatever a thread protects of it stays in
    /// place, unchanged, for as long as the thread goes on reading, and the epoch does not go back.
    pub open spec fn spares_retired(self, post: Self) -> bool {
        &&& self.tokens <= post.tokens
        &&& self.epoch <= post.epoch
        &&& forall|c: usize| #[trigger]
            post.pinned(c) && post.collectors[c].session < self.tokens ==> self.same_session(
                post,
                c,
            )
        &&& forall|c: usize, x: usize| #[trigger]
            self.protects(c, x) && self.same_session(post, c)
                && self.instances[x].retirement is Some ==> {
                &&& post.protects(c, x)
                &&& post.instances[x].body == self.instances[x].body
                &&& post.instances[x].retirement == self.instances[x].retirement
            }
    }

    /// Two steps happen, one after the other.
    pub proof fn lemma_spares_retired_transitive(self, mid: Self, post: Self)
        requires
            self.epochs_ok(),
            self.spares_retired(mid),
            mid.spares_retired(post),
        ensures
            self.spares_retired(post),
    {
        assert forall|c: usize| #[trigger]
            post.pinned(c) && post.collectors[c].session < self.tokens implies self.same_session(
            post,
            c,
        ) by {
            assert(mid.same_session(post, c));
            assert(mid.pinned(c));
            assert(self.same_session(mid, c));
        }
        assert forall|c: usize, x: usize| #[trigger]
            self.protects(c, x) && self.same_session(post, c)
                && self.instances[x].retirement is Some implies {
            &&& post.protects(c, x)
            &&& post.instances[x].body == self.instances[x].body
            &&& post.instances[x].retirement == self.instances[x].retirement
        } by {
            assert(self.pinned(c));
            assert(post.pinned(c));
            assert(post.collectors[c].session < self.tokens);
            assert(mid.same_session(post, c));
            assert(mid.pinned(c));
            assert(self.same_session(mid, c));
            assert(mid.protects(c, x));
        }
    }

    /// Nothing happens.
    pub proof fn lemma_spares_self(self)
        ensures
            self.spares(self),
    {
    }

    /// Two steps happen, one after the other.
    pub proof fn lemma_spares_transitive(self, mid: Self, post: Self)
        requires
            self.epochs_ok(),
            self.spares(mid),
            mid.spares(post),
        ensures
            self.spares(post),
    {
        assert forall|c: usize| #[trigger]
            post.pinned(c) && post.collectors[c].session < self.tokens implies self.same_session(
            post,
            c,
        ) by {
            assert(mid.same_session(post, c));
            assert(mid.pinned(c));
            assert(self.same_session(mid, c));
        }
        assert forall|c: usize, x: usize| #[trigger]
            self.protects(c, x) && self.same_session(post, c) implies {
            &&& post.protects(c, x)
            &&& post.instances[x].body == self.instances[x].body
            &&& self.instances[x].retirement is Some ==> post.instances[x].retirement
                == self.instances[x].retirement
        } by {
            assert(self.pinned(c));
            assert(post.pinned(c));
            assert(post.collectors[c].session < self.tokens);
            assert(mid.same_session(post, c));
            assert(mid.pinned(c));
            assert(self.same_session(mid, c));
            assert(mid.protects(c, x));
        }
    }

    /// Nobody reads any more.
    pub proof fn lemma_spares_unread(self, post: Self)
        requires
            self.tokens <= post.tokens,
            self.epoch <= post.epoch,
            post.chain.len() == 0,
        ensures
            self.spares(post),
    {
        assert forall|c: usize| !#[trigger] post.pinned(c) by {}
    }

    /// No thread takes up reading again in a session of the past.
    pub open spec fn no_revival(self, post: Self) -> bool {
        forall|c: usize| #[trigger]
            post.pinned(c) && post.collectors[c].session < self.tokens ==> self.same_session(
                post,
                c,
            )
    }

    /// Steps that neither retire nor reclaim an instance.
    pub proof fn lemma_spares_simple(self, post: Self)
        requires
            self.tokens <= post.tokens,
            self.epoch <= post.epoch,
            self.no_revival(post),
            forall|x: usize| #[trigger]
                self.instances.contains_key(x) ==> {
                    &&& post.instances.contains_key(x)
                    &&& post.instances[x].body == self.instances[x].body
                    &&& post.instances[x].retirement == self.instances[x].retirement
                },
        ensures
            self.spares(post),
    {
    }

    /// A collector is replaced by another, and nothing else happens.
    pub proof fn lemma_spares_with(self, c: usize, collector: CollectorModel, tokens: nat)
        requires
            self.tokens <= tokens,
            self.collectors.contains_key(c),
            self.registered(c) && collector.active() && collector.session < self.tokens ==> {
                &&& self.collectors[c].active()
                &&& self.collectors[c].session == collector.session
            },
        ensures
            self.spares(Model { tokens, ..self.with(c, collector) }),
    {
        let post = Model { tokens, ..self.with(c, collector) };
        assert forall|d: usize| #[trigger]
            post.pinned(d) && post.collectors[d].session < self.tokens implies self.same_session(
            post,
            d,
        ) by {
            assert(self.registered(d));
        }
        self.lemma_spares_simple(post);
    }

    /// An instance may be retired into a collector of the chain.
    pub proof fn lemma_spares_retire(self, c: usize, x: usize)
        requires
            self.registered(c),
            self.collectors.contains_key(c),
            self.instances.contains_key(x),
            self.instances[x].retirement is None,
            !self.collectors.contains_key(x),
        ensures
            self.spares(self.retire(c, x)),
    {
        let post = self.retire(c, x);
        assert forall|d: usize| #[trigger] post.pinned(d) implies self.same_session(post, d) by {
            assert(self.registered(d));
        }
        assert forall|d: usize, y: usize| #[trigger]
            self.protects(d, y) && self.same_session(post, d) implies {
            &&& post.protects(d, y)
            &&& post.instances[y].body == self.instances[y].body
            &&& self.instances[y].retirement is Some ==> post.instances[y].retirement
                == self.instances[y].retirement
        } by {
            if y == x {
                assert(self.pinned(d));
                assert(self.sessions().contains(self.collectors[d].session));
            }
        }
    }

    /// An instance may be retired into any collector as far as what had been retired before is
    /// concerned.
    pub proof fn lemma_spares_retired_retire(self, c: usize, x: usize)
        requires
            self.collectors.contains_key(c),
            self.instances.contains_key(x),
            self.instances[x].retirement is None,
        ensures
            self.spares_retired(self.retire(c, x)),
    {
        let post = self.retire(c, x);
        assert forall|d: usize| #[trigger] post.pinned(d) implies self.same_session(post, d) by {
            assert(self.registered(d));
        }
    }

    /// A collector that its thread has given up may be taken out of the chain.
    pub proof fn lemma_spares_unlink(self)
        requires
            self.inv(),
            self.lock matches Lock::Scan(scan) && scan.rest.len() > 0
                && self.collectors[scan.rest[0]].invalid,
        ensures
            self.spares(self.scan_unlink()),
    {
        let post = self.scan_unlink();
        let scan = self.lock->Scan_0;
        self.lemma_passed(scan.rest);
        assert forall|d: usize| #[trigger]
            post.pinned(d) && post.collectors[d].session < self.tokens implies self.same_session(
            post,
            d,
        ) by {
            let i = post.chain.index_of(d);
            if i < self.passed(scan.rest).len() {
                assert(self.chain[i] == d);
            } else {
                assert(self.chain[i + 1] == d);
            }
            assert(self.registered(d));
        }
        self.lemma_spares_simple(post);
    }

    /// Nobody protects what was retired two epochs ago.
    pub proof fn lemma_expired(self, c: usize, x: usize)
        requires
            self.steady(),
            self.instances.contains_key(x),
            self.instances[x].retirement is Some,
            self.instances[x].retirement->0.stamp + 2 <= self.epoch,
        ensures
            !self.protects(c, x),
    {
        if self.protects(c, x) {
            assert(self.occupied(x));
            assert(self.retirement(x) == self.instances[x].retirement);
            assert(self.pinned(c));
        }
    }

    /// What is under a list was retired no later than the last of its items.
    pub proof fn lemma_under_stamp(self, a: usize, list: Seq<usize>, limit: nat)
        requires
            self.structure(),
            self.stamps_ok(),
            self.under(a, list),
            forall|x: usize| #[trigger]
                list.contains(x) ==> self.retirement(x) is Some && self.retirement(x)->0.stamp
                    <= limit,
        ensures
            self.retirement(a) is Some,
            self.retirement(a)->0.stamp <= limit,
        decreases self.tokens - self.retirement(a)->0.serial,
    {
        if !list.contains(a) {
            let h = self.retirement(a)->0.holder;
            self.lemma_under_stamp(h, list, limit);
            assert(self.collectors[h].holds(a));
            assert(self.stamp_ok(h, a));
        }
    }

    /// Steps that remove instances that nobody protects.
    pub proof fn lemma_spares_removal(self, post: Self, c: usize, bound: nat)
        requires
            self.steady(),
            self.only_removes(post, c, bound),
            post.collectors.contains_key(c) ==> post.collectors[c].session
                == self.collectors[c].session && post.collectors[c].active()
                == self.collectors[c].active(),
            forall|d: usize, x: usize|
                self.instances.contains_key(x) && !post.instances.contains_key(x)
                    ==> !#[trigger] self.protects(d, x),
        ensures
            self.spares(post),
    {
        assert forall|d: usize| #[trigger] post.pinned(d) implies self.same_session(post, d) by {
            assert(self.registered(d));
        }
    }

    /// A collector of the chain may reclaim its garbage.
    pub proof fn lemma_spares_garbage(self, c: usize)
        requires
            self.inv(),
            self.registered(c),
        ensures
            self.spares(self.drop_bag(c, Bag::Garbage, self.rank(c))),
    {
        let bound = self.rank(c);
        let post = self.drop_bag(c, Bag::Garbage, bound);
        let list = self.collectors[c].garbage;
        self.lemma_drop_bag(c, Bag::Garbage, bound);
        self.lemma_drop_bag_removes(c, Bag::Garbage, bound);
        assert forall|d: usize, x: usize|
            self.instances.contains_key(x) && !post.instances.contains_key(
                x,
            ) implies !#[trigger] self.protects(d, x) by {
            assert(self.occupied(x));
            assert(!post.collectors.contains_key(x));
            assert(self.removed(post, x));
            assert(self.under(x, list));
            assert forall|y: usize| #[trigger] list.contains(y) implies self.retirement(y) is Some
                && self.retirement(y)->0.stamp + 2 <= self.collectors[c].seen by {
                assert(self.collectors[c].holds(y));
                assert(self.keeps(c, y));
                assert(self.stamp_ok(c, y));
            }
            assert(self.collectors[c].seen >= 2) by {
                if list.len() == 0 {
                    self.lemma_drop_bag_removes(c, Bag::Garbage, bound);
                }
                assert(list.len() > 0);
                assert(list.contains(list[0]));
            }
            self.lemma_under_stamp(x, list, (self.collectors[c].seen - 2) as nat);
            self.lemma_expired(d, x);
        }
        self.lemma_spares_removal(post, c, bound);
    }

    /// A collector of the chain may reclaim the first item of its garbage.
    pub proof fn lemma_spares_first(self, c: usize)
        requires
            self.inv(),
            self.registered(c),
            self.collectors[c].garbage.len() > 0,
        ensures
            self.spares(self.drop_first(c, Bag::Garbage)),
    {
        let bound = self.rank(c);
        let first = self.drop_first(c, Bag::Garbage);
        let post = self.drop_bag(c, Bag::Garbage, bound);
        self.lemma_drop_first(c, Bag::Garbage);
        first.lemma_drop_bag(c, Bag::Garbage, bound);
        self.lemma_drop_bag(c, Bag::Garbage, bound);
        self.lemma_spares_garbage(c);
        assert forall|d: usize, x: usize|
            self.instances.contains_key(x) && !first.instances.contains_key(
                x,
            ) implies !#[trigger] self.protects(d, x) by {
            if self.protects(d, x) {
                assert(!post.instances.contains_key(x));
                assert(post.registered(d));
                assert(post.collectors.contains_key(d)) by {
                    assert(self.collectors.contains_key(d));
                }
                assert(self.same_session(post, d));
                assert(post.protects(d, x));
            }
        }
        self.lemma_spares_removal(first, c, bound);
    }

    /// A collector outside the chain may be emptied.
    pub proof fn lemma_spares_temporary(self, c: usize)
        requires
            self.inv(),
            self.collectors.contains_key(c),
            !self.registered(c),
            self.collectors[c].retirement is None,
        ensures
            self.spares(self.clear(c)),
    {
        let bound = self.rank(c);
        let post = self.clear(c);
        let collector = self.collectors[c];
        self.lemma_drop_bags(c, bound);
        self.lemma_drop_bags_removes(c, bound);
        assert forall|d: usize, x: usize|
            self.instances.contains_key(x) && !post.instances.contains_key(
                x,
            ) implies !#[trigger] self.protects(d, x) by {
            assert(self.occupied(x));
            assert(!post.collectors.contains_key(x));
            assert(self.removed(post, x));
            if self.under(x, collector.previous) {
                self.lemma_under_temporary(x, c, collector.previous);
            } else if self.under(x, collector.current) {
                self.lemma_under_temporary(x, c, collector.current);
            } else {
                self.lemma_under_temporary(x, c, collector.next);
            }
            assert(self.retirement(x)->0.readers =~= Set::empty());
        }
        self.lemma_spares_removal(post, c, bound);
    }

    /// What is under a list of a collector outside the chain is in the list.
    proof fn lemma_under_temporary(self, a: usize, c: usize, list: Seq<usize>)
        requires
            self.inv(),
            self.collectors.contains_key(c),
            !self.registered(c),
            self.collectors[c].retirement is None,
            forall|x: usize| #[trigger] list.contains(x) ==> self.collectors[c].holds(x),
            self.under(a, list),
        ensures
            list.contains(a),
            self.retirement(a) is Some,
            self.retirement(a)->0.holder == c,
        decreases self.tokens - self.retirement(a)->0.serial,
    {
        if list.contains(a) {
            assert(self.collectors[c].holds(a));
            assert(self.keeps(c, a));
        } else {
            let h = self.retirement(a)->0.holder;
            self.lemma_under_temporary(h, c, list);
            assert(self.retirement(h) is Some);
            assert(self.instances.contains_key(h));
            assert(self.occupied(h));
        }
    }

    /// A collector may come into being.
    pub proof fn lemma_spares_enlist(self, c: usize)
        requires
            !self.occupied(c),
        ensures
            self.spares(self.enlist(c)),
    {
        let post = self.enlist(c);
        assert forall|d: usize| #[trigger]
            post.pinned(d) && post.collectors[d].session < self.tokens implies self.same_session(
            post,
            d,
        ) by {
            let i = post.chain.index_of(d);
            assert(d != c);
            assert(self.chain[i - 1] == d);
            assert(self.registered(d));
        }
        assert forall|d: usize| #[trigger] self.same_session(post, d) implies d != c by {}
        self.lemma_spares_simple(post);
    }

    /// A thread may get a collector.
    pub proof fn lemma_spares_enrol(self, thread: int, c: usize)
        requires
            self.inv(),
            !self.occupied(c),
        ensures
            self.spares(self.enrol(thread, c)),
    {
        let post = self.enrol(thread, c);
        self.lemma_spares_enlist(c);
        self.enlist(c).lemma_spares_simple(post);
        self.lemma_spares_transitive(self.enlist(c), post);
    }
}

} // verus!

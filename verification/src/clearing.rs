//! Destroying collectors that are in nobody's reach leaves the domain valid.

use crate::model;
use crate::model::{Lock, Model, Payload};
use vstd::prelude::*;

verus! {

impl<T, F> Model<T, F> {
    /// The collectors have been taken out of the chain, and no thread can get at them.
    pub open spec fn doomed(self, list: Seq<usize>) -> bool {
        &&& list.no_duplicates()
        &&& forall|c: usize| #[trigger]
            list.contains(c) ==> {
                &&& self.collectors.contains_key(c)
                &&& self.collectors[c].retirement is None
                &&& self.collectors[c].garbage.len() == 0
                &&& !self.registered(c)
                &&& !self.locals.contains(c)
            }
    }

    /// See [`Model::outside_ok`]: the same, the given collectors aside.
    pub open spec fn outside_but(self, list: Seq<usize>) -> bool {
        &&& forall|c: usize| #[trigger]
            self.collectors.contains_key(c) && !self.registered(c)
                && self.collectors[c].retirement is None && !list.contains(c) ==> {
                &&& self.collectors[c].inactive
                &&& !self.collectors[c].invalid
                &&& self.collectors[c].pending is None
            }
        &&& forall|a: usize|
            (#[trigger] self.retirement(a)) is Some && !self.registered(self.retirement(a)->0.holder)
                && self.collectors[self.retirement(a)->0.holder].retirement is None
                && !list.contains(self.retirement(a)->0.holder)
                ==> self.retirement(a)->0.readers =~= Set::empty() && self.instances.contains_key(a)
    }

    /// What is still there has not been there in another form.
    pub open spec fn survivors_same(self, post: Self) -> bool {
        forall|a: usize| #[trigger]
            post.occupied(a) ==> self.occupied(a) && post.retirement(a) == self.retirement(a)
    }

    /// A collector that keeps nothing may leave the domain.
    pub proof fn lemma_remove_temporary(self, c: usize)
        requires
            self.steady(),
            self.collectors.contains_key(c),
            self.collectors[c].empty(),
            self.collectors[c].retirement is None,
            !self.registered(c),
            !self.locals.contains(c),
        ensures
            self.remove_temporary(c).steady(),
            forall|a: usize| a != c ==> #[trigger] self.remove_temporary(c).retirement(a)
                == self.retirement(a),
            self.remove_temporary(c).retirement(c) is None,
            forall|a: usize| (#[trigger] self.retirement(a)) is Some ==> self.retirement(
                a,
            )->0.holder != c,
    {
        let post = self.remove_temporary(c);
        assert(self.occupied(c));
        assert forall|a: usize| #[trigger] post.occupied(a) == (a != c && self.occupied(a)) by {}
        assert forall|a: usize| a != c implies #[trigger] post.retirement(a) == self.retirement(
            a,
        ) by {}
        assert(post.retirement(c) is None);
        assert forall|a: usize| (#[trigger] self.retirement(a)) is Some implies self.retirement(
            a,
        )->0.holder != c by {
            assert(self.collectors[self.retirement(a)->0.holder].holds(a));
            assert(!self.collectors[c].holds(a));
        }
        assert forall|a: usize| #[trigger] post.registered(a) == self.registered(a) by {}
        assert forall|a: usize| #[trigger] post.pinned(a) == self.pinned(a) by {}
        assert(post.space_ok());
        assert(post.chain_ok());
        assert(post.bags_ok()) by {
            assert forall|d: usize, y: usize|
                post.collectors.contains_key(d) && #[trigger] post.collectors[d].holds(
                    y,
                ) implies post.keeps(d, y) by {
                assert(self.collectors[d].holds(y));
                assert(self.keeps(d, y));
            }
        }
        assert(post.held_ok()) by {
            assert forall|a: usize| (#[trigger] post.retirement(a)) is Some implies {
                let retirement = post.retirement(a)->0;
                &&& post.collectors.contains_key(retirement.holder)
                &&& post.collectors[retirement.holder].holds(a)
                &&& retirement.serial < post.tokens
            } by {
                assert(self.retirement(a) is Some);
            }
        }
        assert(post.instances_ok());
        assert(post.epochs_ok());
        assert(post.stamps_ok()) by {
            assert forall|a: usize| (#[trigger] post.retirement(a)) is Some implies post.retirement(
                a,
            )->0.stamp <= post.epoch by {
                assert(self.retirement(a) is Some);
            }
            assert forall|d: usize, y: usize|
                post.collectors.contains_key(d) && #[trigger] post.collectors[d].holds(
                    y,
                ) implies post.stamp_ok(d, y) by {
                assert(self.collectors[d].holds(y));
                assert(self.keeps(d, y));
                assert(self.stamp_ok(d, y));
            }
        }
        assert(post.readers_ok()) by {
            assert forall|a: usize, s: nat|
                (#[trigger] post.retirement(a)) is Some && #[trigger] post.retirement(
                    a,
                )->0.readers.contains(s) implies s < post.tokens by {
                assert(self.retirement(a) is Some);
            }
            assert forall|a: usize, d: usize|
                (#[trigger] post.retirement(a)) is Some && #[trigger] post.pinned(d)
                    && post.retirement(a)->0.readers.contains(
                    post.collectors[d].session,
                ) implies post.collectors[d].seen <= post.retirement(a)->0.stamp by {
                assert(self.retirement(a) is Some);
                assert(self.pinned(d));
            }
        }
        assert(post.lock_ok()) by {
            match self.lock {
                Lock::Scan(scan) => {
                    assert(post.passed(scan.rest) == self.passed(scan.rest));
                    assert forall|d: usize| #[trigger]
                        post.passed(scan.rest).contains(d) implies post.caught_up(
                        d,
                        scan.known,
                    ) by {
                        assert(self.passed(scan.rest).contains(d));
                        assert(self.caught_up(d, scan.known));
                        assert(self.registered(d));
                    }
                },
                Lock::Clear(clear) => {
                    self.lemma_walked(clear);
                    assert forall|d: usize| #[trigger]
                        clear.walked.contains(d) implies post.collectors[d].invalid by {
                        assert(self.registered(d));
                    }
                },
                Lock::Free => {},
            }
        }
        assert(post.locals_ok());
    }

    /// One of the doomed collectors, and all that it keeps, may leave the domain.
    pub proof fn lemma_destroy_first(self, list: Seq<usize>)
        requires
            self.steady(),
            self.doomed(list),
            self.outside_but(list),
            list.len() > 0,
        ensures
            self.clear(list[0]).steady(),
            self.clear(list[0]).collectors.contains_key(list[0]),
            self.clear(list[0]).collectors[list[0]].empty(),
            self.clear(list[0]).collectors[list[0]].retirement is None,
            ({
                let post = self.clear(list[0]).remove_temporary(list[0]);
                &&& post.steady()
                &&& post.doomed(list.skip(1))
                &&& post.outside_but(list.skip(1))
                &&& post.chain == self.chain
                &&& post.tokens == self.tokens
                &&& post.epoch == self.epoch
                &&& post.lock == self.lock
                &&& post.tag == self.tag
                &&& post.locals == self.locals
                &&& forall|d: usize| #[trigger]
                    self.registered(d) ==> post.collectors[d] == self.collectors[d]
                &&& self.leaves(post)
                &&& self.survivors_same(post)
                &&& !post.occupied(list[0])
                &&& self.destroy(list) == post.destroy(list.skip(1))
            }),
    {
        let c = list[0];
        let bound = self.rank(c);
        assert(list.contains(c));
        self.lemma_drop_bags(c, bound);
        let cleared = self.clear(c);
        cleared.lemma_remove_temporary(c);
        let post = cleared.remove_temporary(c);
        let rest = list.skip(1);
        self.lemma_only_removes(cleared, c, bound);
        assert forall|d: usize| #[trigger] rest.contains(d) implies list.contains(d) && d != c by {
            let i = rest.index_of(d);
            assert(list[i + 1] == d);
        }
        assert forall|d: usize| list.contains(d) && d != c implies #[trigger] rest.contains(d) by {
            let i = list.index_of(d);
            assert(rest[i - 1] == d);
        }
        assert(post.doomed(rest)) by {
            assert forall|d: usize| #[trigger] rest.contains(d) implies {
                &&& post.collectors.contains_key(d)
                &&& post.collectors[d].retirement is None
                &&& post.collectors[d].garbage.len() == 0
                &&& !post.registered(d)
                &&& !post.locals.contains(d)
            } by {
                assert(list.contains(d));
                assert(self.collectors.contains_key(d));
                assert(cleared.collectors.contains_key(d));
            }
        }
        assert(post.outside_but(rest)) by {
            assert forall|d: usize| #[trigger]
                post.collectors.contains_key(d) && !post.registered(d)
                    && post.collectors[d].retirement is None && !rest.contains(d) implies {
                &&& post.collectors[d].inactive
                &&& !post.collectors[d].invalid
                &&& post.collectors[d].pending is None
            } by {
                assert(cleared.collectors.contains_key(d));
                assert(self.collectors.contains_key(d));
                assert(!self.registered(d));
            }
            assert forall|a: usize|
                (#[trigger] post.retirement(a)) is Some && !post.registered(
                    post.retirement(a)->0.holder,
                ) && post.collectors[post.retirement(a)->0.holder].retirement is None
                    && !rest.contains(post.retirement(a)->0.holder) implies post.retirement(
                a,
            )->0.readers =~= Set::empty() && post.instances.contains_key(a) by {
                assert(cleared.retirement(a) is Some);
                assert(self.retirement(a) == cleared.retirement(a));
                let holder = self.retirement(a)->0.holder;
                assert(holder != c);
                assert(cleared.collectors.contains_key(holder));
                assert(!self.registered(holder));
                assert(self.collectors.contains_key(holder));
                assert(self.collectors[holder] == cleared.collectors[holder]);
                assert(!list.contains(holder));
                assert(self.instances.contains_key(a));
                assert(self.occupied(a));
                assert(cleared.collectors.contains_key(a) ==> self.collectors.contains_key(a));
            }
        }
        assert forall|d: usize| #[trigger] self.registered(d) implies post.collectors[d]
            == self.collectors[d] by {
            assert(self.collectors.contains_key(d));
            assert(cleared.collectors.contains_key(d));
        }
        assert(self.occupied(c));
        assert forall|a: usize| #[trigger] post.occupied(a) implies self.occupied(a)
            && post.retirement(a) == self.retirement(a) by {
            assert(cleared.occupied(a));
        }
    }

    /// All the doomed collectors, and all that they keep, may leave the domain.
    pub proof fn lemma_destroy(self, list: Seq<usize>)
        requires
            self.steady(),
            self.doomed(list),
            self.outside_but(list),
        ensures
            self.destroy(list).inv(),
            self.destroy(list).chain == self.chain,
            self.destroy(list).tokens == self.tokens,
            self.destroy(list).epoch == self.epoch,
            self.destroy(list).lock == self.lock,
            self.destroy(list).locals == self.locals,
            self.leaves(self.destroy(list)),
            self.survivors_same(self.destroy(list)),
            forall|c: usize| #[trigger] list.contains(c) ==> !self.destroy(list).occupied(c),
        decreases list.len(),
    {
        if list.len() > 0 {
            self.lemma_destroy_first(list);
            let mid = self.clear(list[0]).remove_temporary(list[0]);
            mid.lemma_destroy(list.skip(1));
            assert forall|c: usize| #[trigger] list.contains(c) implies !self.destroy(
                list,
            ).occupied(c) by {
                if c != list[0] {
                    let i = list.index_of(c);
                    assert(list.skip(1)[i - 1] == c);
                    assert(list.skip(1).contains(c));
                } else {
                    assert(mid.destroy(list.skip(1)).occupied(c) ==> mid.occupied(c));
                }
            }
        } else {
            assert forall|c: usize| !#[trigger] list.contains(c) by {}
        }
    }

    /// Destroying collectors leaves others alone, unless they are retired.
    proof fn lemma_destroy_others(self, list: Seq<usize>, c: usize)
        requires
            self.steady(),
            self.doomed(list),
            self.outside_but(list),
            self.collectors.contains_key(c),
            self.collectors[c].retirement is None,
            !list.contains(c),
        ensures
            self.dropped.is_prefix_of(self.destroy(list).dropped),
            self.destroy(list).collectors.contains_key(c),
            self.destroy(list).collectors[c] == self.collectors[c],
        decreases list.len(),
    {
        if list.len() > 0 {
            let x = list[0];
            assert(list.contains(x));
            self.lemma_destroy_first(list);
            self.lemma_drop_bags(x, self.rank(x));
            let mid = self.clear(x).remove_temporary(x);
            assert(mid.collectors.contains_key(c));
            assert forall|d: usize| #[trigger] list.skip(1).contains(d) implies list.contains(
                d,
            ) by {
                let i = list.skip(1).index_of(d);
                assert(list[i + 1] == d);
            }
            mid.lemma_destroy_others(list.skip(1), c);
        }
    }

    /// What is kept by a collector leaves the domain with it, and not without it.
    pub proof fn lemma_destroy_survivor(self, list: Seq<usize>, a: usize)
        requires
            self.steady(),
            self.doomed(list),
            self.outside_but(list),
            self.occupied(a),
            !list.contains(a),
        ensures
            self.destroy(list).occupied(a) == (self.retirement(a) is None || self.destroy(
                list,
            ).occupied(self.retirement(a)->0.holder)),
        decreases list.len(),
    {
        if list.len() == 0 {
            if self.retirement(a) is Some {
                assert(self.occupied(self.retirement(a)->0.holder));
            }
        } else {
            let c = list[0];
            let cleared = self.clear(c);
            let mid = cleared.remove_temporary(c);
            let rest = list.skip(1);
            assert(list.contains(c));
            self.lemma_destroy_first(list);
            self.lemma_drop_bags(c, self.rank(c));
            self.lemma_drop_bags_removes(c, self.rank(c));
            mid.lemma_destroy(rest);
            assert forall|d: usize| #[trigger] rest.contains(d) implies list.contains(d) by {
                let i = rest.index_of(d);
                assert(list[i + 1] == d);
            }
            assert(mid.occupied(a) == cleared.occupied(a));
            if mid.occupied(a) {
                assert(mid.retirement(a) == self.retirement(a));
                mid.lemma_destroy_survivor(rest, a);
            } else {
                assert(self.removed(cleared, a));
                assert(!mid.destroy(rest).occupied(a));
                let collector = self.collectors[c];
                assert(self.under(a, collector.previous) || self.under(a, collector.current)
                    || self.under(a, collector.next));
                assert(self.retirement(a) is Some) by {
                    if collector.previous.contains(a) || collector.current.contains(a)
                        || collector.next.contains(a) {
                        assert(collector.holds(a));
                        assert(self.keeps(c, a));
                    }
                }
                let h = self.retirement(a)->0.holder;
                assert(self.collectors[h].holds(a));
                if mid.destroy(rest).occupied(h) {
                    assert(mid.occupied(h));
                    assert(h != c);
                    assert(self.collectors.contains_key(h));
                    assert(mid.collectors.contains_key(h));
                    assert(mid.collectors[h].holds(a));
                    assert(mid.keeps(h, a));
                    assert(mid.occupied(a));
                }
            }
        }
    }

    /// Collectors that are left are the same as before.
    pub proof fn lemma_destroy_collectors(self, list: Seq<usize>)
        requires
            self.steady(),
            self.doomed(list),
            self.outside_but(list),
        ensures
            forall|d: usize| #[trigger]
                self.destroy(list).collectors.contains_key(d) ==> {
                    &&& self.collectors.contains_key(d)
                    &&& self.destroy(list).collectors[d] == self.collectors[d]
                },
        decreases list.len(),
    {
        if list.len() > 0 {
            let c = list[0];
            assert(list.contains(c));
            self.lemma_destroy_first(list);
            self.lemma_drop_bags(c, self.rank(c));
            let mid = self.clear(c).remove_temporary(c);
            mid.lemma_destroy_collectors(list.skip(1));
            assert forall|d: usize| #[trigger]
                self.destroy(list).collectors.contains_key(d) implies {
                &&& self.collectors.contains_key(d)
                &&& self.destroy(list).collectors[d] == self.collectors[d]
            } by {
                assert(mid.collectors.contains_key(d));
                assert(self.clear(c).collectors.contains_key(d));
            }
        }
    }

    /// What the collectors of a list keep, one collector after the other.
    pub open spec fn estates(self, list: Seq<usize>) -> Seq<Payload<T, F>>
        decreases list.len(),
    {
        if list.len() == 0 {
            Seq::empty()
        } else {
            self.contents_of(list[0]) + self.estates(list.skip(1))
        }
    }

    /// The same, as long as each of the collectors keeps the same.
    proof fn lemma_estates_frame(self, post: Self, list: Seq<usize>)
        requires
            forall|i: int|
                0 <= i < list.len() ==> post.contents_of(#[trigger] list[i]) == self.contents_of(
                    list[i],
                ),
        ensures
            post.estates(list) == self.estates(list),
        decreases list.len(),
    {
        if list.len() > 0 {
            let first: int = 0;
            assert(post.contents_of(list[first]) == self.contents_of(list[first]));
            assert forall|i: int| 0 <= i < list.skip(1).len() implies post.contents_of(
                #[trigger] list.skip(1)[i],
            ) == self.contents_of(list.skip(1)[i]) by {
                assert(list.skip(1)[i] == list[i + 1]);
            }
            self.lemma_estates_frame(post, list.skip(1));
        }
    }

    /// What is to be destroyed of doomed collectors.
    pub proof fn lemma_destroy_contents(self, list: Seq<usize>)
        requires
            self.steady(),
            self.doomed(list),
            self.outside_but(list),
        ensures
            self.destroy(list).dropped == self.dropped + self.estates(list),
        decreases list.len(),
    {
        if list.len() == 0 {
            assert(self.dropped + self.estates(list) =~= self.dropped);
        } else {
            let c = list[0];
            let rest = list.skip(1);
            let mid = self.clear(c).remove_temporary(c);
            assert(list.contains(c));
            self.lemma_destroy_first(list);
            self.lemma_drop_bags_contents(c, self.rank(c));
            mid.lemma_destroy_contents(rest);
            assert forall|i: int| 0 <= i < rest.len() implies mid.contents_of(#[trigger] rest[i])
                == self.contents_of(rest[i]) by {
                assert(rest[i] == list[i + 1]);
                assert(list.contains(list[i + 1]));
                self.lemma_contents_roots(mid, c, rest[i]);
            }
            self.lemma_estates_frame(mid, rest);
            assert(self.dropped + self.contents_of(c) + self.estates(rest) =~= self.dropped
                + self.estates(list));
        }
    }

    /// The collectors of the chain are doomed once they have been taken out of it.
    pub proof fn lemma_clear_unlink(self)
        requires
            self.inv(),
            self.lock matches Lock::Clear(clear) && clear.rest.len() == 0 && model::first_of(
                self.chain,
            ) == clear.head,
        ensures
            self.chain == self.lock->Clear_0.walked,
            self.clear_unlink().steady(),
            self.clear_unlink().doomed(self.chain),
            self.clear_unlink().outside_but(self.chain),
            self.spares(self.clear_commit()),
    {
        let clear = self.lock->Clear_0;
        let tail = clear.walked + clear.rest;
        let post = self.clear_unlink();
        assert(tail =~= clear.walked);
        assert(self.chain =~= clear.walked) by {
            let offset = self.chain.len() - tail.len();
            if tail.len() > 0 {
                assert(self.chain[offset] == tail[0]);
                assert(self.chain[0] == self.chain[offset]);
            } else if self.chain.len() > 0 {
                assert(self.registered(self.chain[0]));
                assert(self.occupied(self.chain[0]));
            }
        }
        assert forall|a: usize| !#[trigger] post.registered(a) by {}
        assert forall|a: usize| #[trigger] post.retirement(a) == self.retirement(a) by {}
        assert forall|a: usize| #[trigger] post.occupied(a) == self.occupied(a) by {}
        assert forall|a: usize| #[trigger] self.registered(a) implies self.collectors[a].invalid by {
            assert(clear.walked.contains(a));
        }
        assert forall|a: usize| !#[trigger] self.pinned(a) by {}
        assert(post.structure()) by {
            assert forall|d: usize, y: usize|
                post.collectors.contains_key(d) && #[trigger] post.collectors[d].holds(
                    y,
                ) implies post.keeps(d, y) by {
                assert(self.keeps(d, y));
            }
        }
        assert(post.stamps_ok()) by {
            assert forall|a: usize| (#[trigger] post.retirement(a)) is Some implies post.retirement(
                a,
            )->0.stamp <= post.epoch by {
                assert(self.retirement(a) is Some);
            }
            assert forall|d: usize, y: usize|
                post.collectors.contains_key(d) && #[trigger] post.collectors[d].holds(
                    y,
                ) implies post.stamp_ok(d, y) by {
                assert(self.stamp_ok(d, y));
            }
        }
        assert(post.readers_ok()) by {
            assert forall|a: usize, s: nat|
                (#[trigger] post.retirement(a)) is Some && #[trigger] post.retirement(
                    a,
                )->0.readers.contains(s) implies s < post.tokens by {
                assert(self.retirement(a) is Some);
            }
        }
        assert(post.lock_ok()) by {
            assert(Seq::<usize>::empty() + Seq::<usize>::empty() =~= Seq::<usize>::empty());
        }
        assert(post.doomed(self.chain)) by {
            assert forall|c: usize| #[trigger] self.chain.contains(c) implies {
                &&& post.collectors.contains_key(c)
                &&& post.collectors[c].retirement is None
                &&& post.collectors[c].garbage.len() == 0
                &&& !post.registered(c)
                &&& !post.locals.contains(c)
            } by {
                assert(self.registered(c));
                if self.locals.contains(c) {
                    let i = self.locals.index_of(c);
                    assert(self.locals[i] == c);
                    assert(self.occupied(c));
                }
            }
        }
        assert(post.outside_but(self.chain)) by {
            assert forall|a: usize|
                (#[trigger] post.retirement(a)) is Some && !post.registered(
                    post.retirement(a)->0.holder,
                ) && post.collectors[post.retirement(a)->0.holder].retirement is None
                    && !self.chain.contains(post.retirement(a)->0.holder) implies post.retirement(
                a,
            )->0.readers =~= Set::empty() && post.instances.contains_key(a) by {
                assert(self.retirement(a) is Some);
                assert(!self.registered(self.retirement(a)->0.holder));
            }
        }
        post.lemma_destroy(self.chain);
    }

    /// A temporary collector that keeps nothing may leave the domain.
    pub proof fn lemma_dismiss(self, c: usize)
        requires
            self.inv(),
            self.collectors.contains_key(c),
            self.collectors[c].empty(),
            self.collectors[c].retirement is None,
            !self.registered(c),
            !self.locals.contains(c),
        ensures
            self.remove_temporary(c).inv(),
            self.spares(self.remove_temporary(c)),
    {
        let post = self.remove_temporary(c);
        self.lemma_remove_temporary(c);
        assert forall|a: usize|
            (#[trigger] post.retirement(a)) is Some && !post.registered(
                post.retirement(a)->0.holder,
            ) && post.collectors[post.retirement(a)->0.holder].retirement is None implies
            post.retirement(a)->0.readers =~= Set::empty() && post.instances.contains_key(a) by {
            assert(self.retirement(a) is Some);
        }
        self.lemma_spares_simple(post);
    }

    /// Whether the chain can be cleared shows collector by collector.
    pub proof fn lemma_invalid_rest(self)
        requires
            self.lock matches Lock::Clear(clear) && clear.rest.len() > 0,
        ensures
            self.all_invalid(self.lock->Clear_0.rest) == (
            self.collectors[self.lock->Clear_0.rest[0]].invalid && self.all_invalid(
                self.lock->Clear_0.rest.skip(1),
            )),
    {
        let rest = self.lock->Clear_0.rest;
        if self.collectors[rest[0]].invalid && self.all_invalid(rest.skip(1)) {
            assert forall|i: int| 0 <= i < rest.len() implies self.collectors[
                #[trigger] rest[i]
            ].invalid by {
                if i > 0 {
                    assert(rest.skip(1)[i - 1] == rest[i]);
                }
            }
        }
        if self.all_invalid(rest) {
            assert forall|i: int| 0 <= i < rest.skip(1).len() implies self.collectors[
                #[trigger] rest.skip(1)[i]
            ].invalid by {
                assert(rest.skip(1)[i] == rest[i + 1]);
            }
        }
    }

    /// What walking over the chain leaves as it is, and when it gets to the end.
    proof fn lemma_clear_run(self)
        requires
            self.inv(),
            self.lock is Clear,
        ensures
            self.clear_run().inv(),
            self.clear_run().lock is Clear,
            self.clear_run().lock->Clear_0.head == self.lock->Clear_0.head,
            self.clear_run().chain == self.chain,
            self.clear_run().locals == self.locals,
            self.clear_run().tokens == self.tokens,
            self.clear_run().epoch == self.epoch,
            self.clear_run().collectors == self.collectors,
            self.clear_run().instances == self.instances,
            self.clear_run().dropped == self.dropped,
            self.clear_run().lock->Clear_0.rest.len() == 0 <==> self.all_invalid(
                self.lock->Clear_0.rest,
            ),
        decreases self.lock->Clear_0.rest.len(),
    {
        let clear = self.lock->Clear_0;
        if clear.rest.len() > 0 && self.collectors[clear.rest[0]].invalid {
            self.lemma_clear_pass();
            self.lemma_invalid_rest();
            self.clear_pass().lemma_clear_run();
            assert(self.clear_pass().all_invalid(clear.rest.skip(1)) == self.all_invalid(
                clear.rest.skip(1),
            ));
        } else if clear.rest.len() > 0 {
            self.lemma_invalid_rest();
        }
    }

    /// The whole chain has been walked once it has been found that all of it is invalid.
    pub proof fn lemma_clear_commits(self)
        requires
            self.inv(),
            self.lock is Clear,
            self.all_invalid(self.lock->Clear_0.rest),
        ensures
            self.clear_run().inv(),
            self.clear_run().lock is Clear,
            self.clear_run().lock->Clear_0.rest.len() == 0,
            self.clear_run().lock->Clear_0.head == self.lock->Clear_0.head,
            self.clear_run().chain == self.chain,
            self.clear_run().collectors == self.collectors,
            self.clear_run().instances == self.instances,
            self.clear_run().dropped == self.dropped,
            self.clear_run().tokens == self.tokens,
    {
        self.lemma_clear_run();
    }

    /// What clearing the chain comes to.
    pub proof fn lemma_cleared(self)
        requires
            self.inv(),
            self.lock is Free,
        ensures
            self.clear_chain().locals == self.locals,
            self.clear_chain().tokens == self.tokens,
            self.clear_chain().epoch == self.epoch,
            self.leaves(self.clear_chain()),
            self.all_invalid(self.chain) ==> {
                &&& self.clear_chain().chain.len() == 0
                &&& self.survivors_same(self.clear_chain())
                &&& self.clear_chain().inv()
                &&& forall|c: usize| #[trigger]
                    self.registered(c) ==> !self.clear_chain().occupied(c)
            },
            !self.all_invalid(self.chain) ==> {
                &&& self.clear_chain().chain == self.chain
                &&& self.clear_chain().collectors == self.collectors
                &&& self.clear_chain().instances == self.instances
            },
    {
        self.lemma_clear_lock();
        self.clear_lock().lemma_clear_run();
        let walked = self.clear_lock().clear_run();
        if walked.lock->Clear_0.rest.len() == 0 {
            walked.lemma_clear_unlink();
            let unlinked = walked.clear_unlink();
            unlinked.lemma_destroy(walked.chain);
            walked.clear_commit().lemma_unlock();
            let post = self.clear_chain();
            assert forall|a: usize| #[trigger] post.occupied(a) implies self.occupied(a)
                && post.retirement(a) == self.retirement(a) by {
                assert(unlinked.destroy(walked.chain).occupied(a));
                assert(unlinked.occupied(a));
                assert(post.retirement(a) == unlinked.destroy(walked.chain).retirement(a));
                assert(unlinked.retirement(a) == self.retirement(a));
            }
            assert forall|c: usize| #[trigger] self.registered(c) implies !post.occupied(c) by {
                assert(walked.chain.contains(c));
                assert(!unlinked.destroy(walked.chain).occupied(c));
            }
        }
    }

    /// What clearing the chain leaves as it is.
    pub proof fn lemma_clear_chain(self)
        requires
            self.inv(),
        ensures
            self.clear_chain().inv(),
            self.clear_chain().locals == self.locals,
            forall|c: usize| #[trigger] self.clear_chain().registered(c) ==> self.registered(c),
    {
        if self.lock is Free {
            self.lemma_clear_lock();
            self.clear_lock().lemma_clear_run();
            let walked = self.clear_lock().clear_run();
            if walked.lock->Clear_0.rest.len() == 0 {
                walked.lemma_clear_unlink();
                walked.clear_unlink().lemma_destroy(walked.chain);
                walked.clear_commit().lemma_unlock();
            } else {
                walked.lemma_unlock();
            }
        }
    }

    /// Clearing the chain leaves a collector outside it as it is, and takes back nothing of what is
    /// to be destroyed.
    pub proof fn lemma_swept(self, c: usize)
        requires
            self.inv(),
            self.collectors.contains_key(c),
            !self.collectors[c].invalid,
        ensures
            self.dropped.is_prefix_of(self.clear_chain().dropped),
            !(self.lock is Free && self.all_invalid(self.chain)) ==> self.clear_chain().dropped
                == self.dropped,
            self.clear_chain().collectors.contains_key(c),
            self.clear_chain().collectors[c] == self.collectors[c],
            self.clear_chain().tokens == self.tokens,
    {
        if self.lock is Free {
            self.lemma_clear_lock();
            self.clear_lock().lemma_clear_run();
            let walked = self.clear_lock().clear_run();
            assert(self.clear_lock().all_invalid(self.chain) == self.all_invalid(self.chain));
            if walked.lock->Clear_0.rest.len() == 0 {
                walked.lemma_clear_unlink();
                let unlinked = walked.clear_unlink();
                assert(!walked.chain.contains(c)) by {
                    if walked.chain.contains(c) {
                        let i = self.chain.index_of(c);
                        assert(self.collectors[self.chain[i]].invalid);
                    }
                }
                unlinked.lemma_destroy(walked.chain);
                unlinked.lemma_destroy_others(walked.chain, c);
            }
        }
    }
}

} // verus!

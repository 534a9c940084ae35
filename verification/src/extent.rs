//! What is destroyed together with the items of a list.

use crate::model::{Bag, Model, Payload};
use vstd::prelude::*;

verus! {

impl<T, F> Model<T, F> {
    /// `a` is in the list, or it is kept by a retired collector of which the same is true.
    pub open spec fn under(self, a: usize, list: Seq<usize>) -> bool
        decreases self.tokens - self.retirement(a)->0.serial,
    {
        ||| list.contains(a)
        ||| self.retirement(a) matches Some(retirement) && {
            &&& retirement.serial < self.tokens
            &&& self.collectors.contains_key(retirement.holder)
            &&& self.collectors[retirement.holder].retirement matches Some(above) && {
                &&& retirement.serial < above.serial < self.tokens
                &&& self.under(retirement.holder, list)
            }
        }
    }

    /// The address has become vacant.
    pub open spec fn removed(self, post: Self, a: usize) -> bool {
        self.occupied(a) && !post.occupied(a)
    }

    /// What is under a list is under its first item or under the rest.
    proof fn lemma_under_split(self, a: usize, list: Seq<usize>)
        requires
            list.len() > 0,
        ensures
            self.under(a, list) == (self.under(a, seq![list[0]]) || self.under(a, list.skip(1))),
        decreases self.tokens - self.retirement(a)->0.serial,
    {
        assert(list.contains(a) == (a == list[0] || list.skip(1).contains(a))) by {
            if list.contains(a) && a != list[0] {
                let i = list.index_of(a);
                assert(list.skip(1)[i - 1] == a);
            }
            if list.skip(1).contains(a) {
                let i = list.skip(1).index_of(a);
                assert(list[i + 1] == a);
            }
        }
        assert(seq![list[0]].contains(a) == (a == list[0])) by {
            assert(seq![list[0]][0] == list[0]);
        }
        if let Some(retirement) = self.retirement(a) {
            if retirement.serial < self.tokens && self.collectors.contains_key(retirement.holder)
                && self.collectors[retirement.holder].retirement is Some && retirement.serial
                < self.collectors[retirement.holder].retirement->0.serial < self.tokens {
                self.lemma_under_split(retirement.holder, list);
            }
        }
    }

    /// What is under a collector is what is under the items that it keeps.
    proof fn lemma_under_collector(self, a: usize, x: usize)
        requires
            self.structure(),
            self.collectors.contains_key(x),
            self.collectors[x].retirement is Some,
            a != x,
        ensures
            self.under(a, seq![x]) == (self.under(a, self.collectors[x].previous) || self.under(
                a,
                self.collectors[x].current,
            ) || self.under(a, self.collectors[x].next)),
        decreases self.tokens - self.retirement(a)->0.serial,
    {
        let collector = self.collectors[x];
        assert(seq![x].contains(a) == (a == x)) by {
            assert(seq![x][0] == x);
        }
        assert(seq![x].contains(x)) by {
            assert(seq![x][0] == x);
        }
        assert(collector.invalid);
        assert(collector.garbage.len() == 0);
        if collector.holds(a) {
            assert(self.keeps(x, a));
        }
        if let Some(retirement) = self.retirement(a) {
            let h = retirement.holder;
            assert(self.collectors.contains_key(h) && self.collectors[h].holds(a));
            if h == x {
                assert(self.under(x, seq![x]));
            } else if self.collectors[h].retirement is Some {
                assert(self.keeps(h, a));
                self.lemma_under_collector(h, x);
            }
        }
    }

    /// Leaving out what is not under the list changes nothing for what is left.
    proof fn lemma_under_frame(self, post: Self, a: usize, list: Seq<usize>, gone: Seq<usize>)
        requires
            self.structure(),
            post.structure(),
            self.tokens == post.tokens,
            self.occupied(a),
            !self.under(a, gone),
            forall|b: usize|
                #[trigger] self.occupied(b) && !self.under(b, gone) ==> {
                    &&& post.occupied(b)
                    &&& post.retirement(b) == self.retirement(b)
                },
            forall|b: usize| (#[trigger] post.retirement(b)) is Some ==> post.retirement(b)
                == self.retirement(b),
            forall|b: usize| #[trigger]
                post.collectors.contains_key(b) ==> self.collectors.contains_key(b),
            forall|b: usize| #[trigger]
                post.instances.contains_key(b) ==> self.instances.contains_key(b),
        ensures
            self.under(a, list) == post.under(a, list),
        decreases self.tokens - self.retirement(a)->0.serial,
    {
        assert(post.occupied(a));
        if let Some(retirement) = self.retirement(a) {
            let h = retirement.holder;
            assert(self.collectors.contains_key(h) && self.collectors[h].holds(a));
            assert(self.keeps(h, a));
            assert(post.collectors.contains_key(h));
            if self.collectors[h].retirement is Some {
                assert(self.occupied(h));
                assert(!self.under(h, gone));
                self.lemma_under_frame(post, h, list, gone);
                assert(post.retirement(h) == self.retirement(h));
            } else {
                assert(post.retirement(h) is None);
            }
        }
    }

    /// What is left has not changed.
    pub proof fn lemma_only_removes(self, post: Self, c: usize, bound: nat)
        requires
            self.space_ok(),
            self.only_removes(post, c, bound),
            post.collectors.contains_key(c) ==> post.collectors[c].retirement
                == self.collectors[c].retirement,
        ensures
            forall|b: usize| #[trigger]
                post.occupied(b) ==> self.occupied(b) && post.retirement(b) == self.retirement(b),
            forall|b: usize| (#[trigger] post.retirement(b)) is Some ==> post.retirement(b)
                == self.retirement(b),
    {
        assert forall|b: usize| #[trigger] post.occupied(b) implies self.occupied(b)
            && post.retirement(b) == self.retirement(b) by {
            assert(self.occupied(b));
        }
        assert forall|b: usize| (#[trigger] post.retirement(b)) is Some implies post.retirement(b)
            == self.retirement(b) by {
            assert(post.occupied(b));
        }
    }

    /// What is left once the first item of a list, and all that is under it, has gone.
    proof fn lemma_first_removed(self, c: usize, bag: Bag, bound: nat, discarded: Self)
        requires
            self.registered(c) ==> bag == Bag::Garbage,
            self.steady(),
            self.collectors.contains_key(c),
            bound == self.rank(c),
            self.collectors[c].bag(bag).len() > 0,
            ({
                let x = self.collectors[c].bag(bag)[0];
                if self.collectors.contains_key(x) {
                    let emptied = self.drop_bags(x, self.rank(x));
                    &&& discarded == emptied.discard(c, bag)
                    &&& forall|a: usize| #[trigger]
                        self.removed(emptied, a) == (self.occupied(a) && (self.under(
                            a,
                            self.collectors[x].previous,
                        ) || self.under(a, self.collectors[x].current) || self.under(
                            a,
                            self.collectors[x].next,
                        )))
                } else {
                    discarded == self.discard(c, bag)
                }
            }),
        ensures
            discarded.steady(),
            self.only_removes(discarded, c, bound),
            discarded.collectors.contains_key(c),
            discarded.collectors[c] == self.collectors[c].with_bag(
                bag,
                self.collectors[c].bag(bag).skip(1),
            ),
            discarded.rank(c) == bound,
            forall|a: usize|
                self.occupied(a) ==> #[trigger] discarded.occupied(a) == !self.under(
                    a,
                    seq![self.collectors[c].bag(bag)[0]],
                ),
    {
        let x = self.collectors[c].bag(bag)[0];
        self.collectors[c].lemma_shortened(bag);
        assert(self.collectors[c].holds(x));
        assert(self.keeps(c, x));
        let gone = seq![x];
        assert(gone[0] == x);
        assert(gone.contains(x));
        assert(self.under(x, gone));
        if self.collectors.contains_key(x) {
            let emptied = self.drop_bags(x, self.rank(x));
            assert(self.rank(x) < bound);
            self.lemma_drop_bags(x, self.rank(x));
            assert(self.collectors[x].invalid);
            assert(emptied.collectors[c] == self.collectors[c]);
            emptied.lemma_discard(c, bag);
            assert forall|a: usize| self.occupied(a) implies #[trigger] discarded.occupied(a)
                == !self.under(a, gone) by {
                if a != x {
                    self.lemma_under_collector(a, x);
                    assert(self.removed(emptied, a) == !emptied.occupied(a));
                    assert(discarded.occupied(a) == emptied.occupied(a));
                }
            }
        } else {
            self.lemma_discard(c, bag);
            assert forall|a: usize| self.occupied(a) implies #[trigger] discarded.occupied(a)
                == !self.under(a, gone) by {
                if a != x {
                    self.lemma_under_instance(a, x);
                }
            }
        }
    }

    /// A list leaves the domain together with all that is under it, and nothing else does.
    pub proof fn lemma_drop_bag_removes(self, c: usize, bag: Bag, bound: nat)
        requires
            self.registered(c) ==> bag == Bag::Garbage,
            self.steady(),
            self.collectors.contains_key(c),
            bound == self.rank(c),
        ensures
            forall|a: usize| #[trigger]
                self.removed(self.drop_bag(c, bag, bound), a) == (self.occupied(a) && self.under(
                    a,
                    self.collectors[c].bag(bag),
                )),
        decreases bound, 0nat, self.collectors[c].bag(bag).len(),
    {
        let list = self.collectors[c].bag(bag);
        let post = self.drop_bag(c, bag, bound);
        if list.len() == 0 {
            assert forall|a: usize| #[trigger] self.removed(post, a) == (self.occupied(a)
                && self.under(a, list)) by {
                self.lemma_under_none(a, list);
            }
        } else {
            let x = list[0];
            self.collectors[c].lemma_shortened(bag);
            assert(self.keeps(c, x));
            if self.collectors.contains_key(x) {
                self.lemma_drop_bags_removes(x, self.rank(x));
            }
            let emptied = if self.collectors.contains_key(x) && self.rank(x) < bound {
                self.drop_bags(x, self.rank(x))
            } else {
                self
            };
            let discarded = emptied.discard(c, bag);
            self.lemma_first_removed(c, bag, bound, discarded);
            assert(discarded.collectors[c].bag(bag) =~= list.skip(1));
            discarded.lemma_drop_bag(c, bag, bound);
            discarded.lemma_drop_bag_removes(c, bag, bound);
            let gone = seq![x];
            self.lemma_only_removes(discarded, c, bound);
            assert(discarded.only_removes(post, c, bound));
            assert forall|b: usize| #[trigger] self.occupied(b) && !self.under(
                b,
                gone,
            ) implies discarded.occupied(b) && discarded.retirement(b) == self.retirement(b) by {
                assert(discarded.occupied(b));
            }
            assert forall|a: usize| #[trigger] self.removed(post, a) == (self.occupied(a)
                && self.under(a, list)) by {
                if self.occupied(a) {
                    self.lemma_under_split(a, list);
                    assert(discarded.occupied(a) == !self.under(a, gone));
                    if discarded.occupied(a) {
                        assert(discarded.removed(post, a) == discarded.under(a, list.skip(1)));
                        self.lemma_under_frame(discarded, a, list.skip(1), gone);
                    } else {
                        assert(!post.occupied(a));
                    }
                }
            }
        }
    }

    /// A collector loses all that is under the items that it keeps, and nothing else leaves the
    /// domain.
    pub proof fn lemma_drop_bags_removes(self, c: usize, bound: nat)
        requires
            !self.registered(c),
            self.steady(),
            self.collectors.contains_key(c),
            bound == self.rank(c),
        ensures
            forall|a: usize| #[trigger]
                self.removed(self.drop_bags(c, bound), a) == (self.occupied(a) && (self.under(
                    a,
                    self.collectors[c].previous,
                ) || self.under(a, self.collectors[c].current) || self.under(
                    a,
                    self.collectors[c].next,
                ))),
        decreases bound, 1nat, 0nat,
    {
        let collector = self.collectors[c];
        self.lemma_drop_bag(c, Bag::Previous, bound);
        self.lemma_drop_bag_removes(c, Bag::Previous, bound);
        let first = self.drop_bag(c, Bag::Previous, bound);
        first.lemma_drop_bag(c, Bag::Current, bound);
        first.lemma_drop_bag_removes(c, Bag::Current, bound);
        let second = first.drop_bag(c, Bag::Current, bound);
        second.lemma_drop_bag(c, Bag::Next, bound);
        second.lemma_drop_bag_removes(c, Bag::Next, bound);
        let post = self.drop_bags(c, bound);
        self.lemma_only_removes(first, c, bound);
        first.lemma_only_removes(second, c, bound);
        assert forall|b: usize| #[trigger] self.occupied(b) && !self.under(
            b,
            collector.previous,
        ) implies first.occupied(b) && first.retirement(b) == self.retirement(b) by {
            assert(!self.removed(first, b));
        }
        assert forall|b: usize| #[trigger] first.occupied(b) && !first.under(
            b,
            collector.current,
        ) implies second.occupied(b) && second.retirement(b) == first.retirement(b) by {
            assert(!first.removed(second, b));
        }
        assert forall|a: usize| #[trigger] self.removed(post, a) == (self.occupied(a) && (
        self.under(a, collector.previous) || self.under(a, collector.current) || self.under(
            a,
            collector.next,
        ))) by {
            if self.occupied(a) {
                assert(self.removed(first, a) == self.under(a, collector.previous));
                if !self.under(a, collector.previous) {
                    self.lemma_under_frame(first, a, collector.current, collector.previous);
                    self.lemma_under_frame(first, a, collector.next, collector.previous);
                    assert(first.removed(second, a) == first.under(a, collector.current));
                    if !first.under(a, collector.current) {
                        first.lemma_under_frame(second, a, collector.next, collector.current);
                        assert(second.removed(post, a) == second.under(a, collector.next));
                    } else {
                        assert(!second.occupied(a));
                        assert(!post.occupied(a));
                    }
                } else {
                    assert(!first.occupied(a));
                    assert(!second.occupied(a));
                    assert(!post.occupied(a));
                }
            }
        }
    }

    /// Nothing is under an empty list.
    proof fn lemma_under_none(self, a: usize, list: Seq<usize>)
        requires
            list.len() == 0,
        ensures
            !self.under(a, list),
        decreases self.tokens - self.retirement(a)->0.serial,
    {
        if let Some(retirement) = self.retirement(a) {
            if retirement.serial < self.tokens && self.collectors.contains_key(retirement.holder)
                && self.collectors[retirement.holder].retirement is Some && retirement.serial
                < self.collectors[retirement.holder].retirement->0.serial < self.tokens {
                self.lemma_under_none(retirement.holder, list);
            }
        }
    }

    /// Nothing but itself is under an instance.
    pub proof fn lemma_under_instance(self, a: usize, x: usize)
        requires
            !self.collectors.contains_key(x),
            a != x,
        ensures
            !self.under(a, seq![x]),
        decreases self.tokens - self.retirement(a)->0.serial,
    {
        assert(!seq![x].contains(a));
        if let Some(retirement) = self.retirement(a) {
            if retirement.serial < self.tokens && self.collectors.contains_key(retirement.holder)
                && self.collectors[retirement.holder].retirement is Some && retirement.serial
                < self.collectors[retirement.holder].retirement->0.serial < self.tokens {
                self.lemma_under_instance(retirement.holder, x);
            }
        }
    }

    /// What is destroyed with the items of a list, in the order in which it is: one item after the
    /// other, and in the place of a collector what it keeps.
    pub open spec fn contents(self, list: Seq<usize>, bound: nat) -> Seq<Payload<T, F>>
        decreases bound, list.len(),
    {
        if list.len() == 0 {
            Seq::empty()
        } else {
            let x = list[0];
            let first = if self.instances.contains_key(x) {
                seq![self.instances[x].body]
            } else if self.collectors.contains_key(x) && self.rank(x) < bound {
                self.contents(self.collectors[x].previous, self.rank(x)) + self.contents(
                    self.collectors[x].current,
                    self.rank(x),
                ) + self.contents(self.collectors[x].next, self.rank(x))
            } else {
                Seq::empty()
            };
            first + self.contents(list.skip(1), bound)
        }
    }

    /// Whatever is under a list was retired no later than one of its items.
    proof fn lemma_under_rank(self, a: usize, list: Seq<usize>, bound: nat)
        requires
            self.structure(),
            self.under(a, list),
            forall|x: usize| #[trigger]
                list.contains(x) ==> self.retirement(x) is Some && self.retirement(x)->0.serial
                    < bound,
        ensures
            self.retirement(a) is Some,
            self.retirement(a)->0.serial < bound,
        decreases self.tokens - self.retirement(a)->0.serial,
    {
        if !list.contains(a) {
            self.lemma_under_rank(self.retirement(a)->0.holder, list, bound);
        }
    }

    /// Nothing is under two items of one collector.
    proof fn lemma_under_apart(self, a: usize, c: usize, x: usize, rest: Seq<usize>)
        requires
            self.structure(),
            self.collectors.contains_key(c),
            self.collectors[c].holds(x),
            !rest.contains(x),
            forall|y: usize| #[trigger] rest.contains(y) ==> self.collectors[c].holds(y),
            self.under(a, seq![x]),
        ensures
            !self.under(a, rest),
        decreases self.tokens - self.retirement(a)->0.serial,
    {
        let one = seq![x];
        assert(one[0] == x);
        assert forall|y: usize| #[trigger] rest.contains(y) implies self.retirement(y) is Some
            && self.retirement(y)->0.serial < self.rank(c) by {
            assert(self.collectors[c].holds(y));
            assert(self.keeps(c, y));
        }
        assert forall|y: usize| #[trigger] one.contains(y) implies self.retirement(y) is Some
            && self.retirement(y)->0.serial < self.rank(c) by {
            assert(self.keeps(c, x));
        }
        if self.under(a, rest) {
            self.lemma_under_rank(a, rest, self.rank(c));
            let h = self.retirement(a)->0.holder;
            if a == x {
                assert(self.keeps(c, x));
                assert(h == c);
                self.lemma_under_rank(c, rest, self.rank(c));
            } else {
                assert(!one.contains(a));
                assert(self.under(h, one));
                if rest.contains(a) {
                    assert(self.collectors[c].holds(a));
                    assert(self.keeps(c, a));
                    assert(h == c);
                    self.lemma_under_rank(c, one, self.rank(c));
                } else {
                    self.lemma_under_apart(h, c, x, rest);
                }
            }
        }
    }

    /// What is under a list that an item of another list keeps is under the latter.
    proof fn lemma_under_within(self, a: usize, x: usize, inner: Seq<usize>, list: Seq<usize>)
        requires
            self.structure(),
            self.collectors.contains_key(x),
            self.collectors[x].retirement is Some,
            list.contains(x),
            forall|y: usize| #[trigger] inner.contains(y) ==> self.collectors[x].holds(y),
            self.under(a, inner),
        ensures
            self.under(a, list),
        decreases self.tokens - self.retirement(a)->0.serial,
    {
        if inner.contains(a) {
            assert(self.collectors[x].holds(a));
            assert(self.keeps(x, a));
            assert(self.under(x, list));
            assert(self.retirement(x) is Some);
        } else {
            self.lemma_under_within(self.retirement(a)->0.holder, x, inner, list);
        }
    }

    /// The contents of a list depend on nothing but what is under it.
    pub proof fn lemma_contents_frame(self, post: Self, list: Seq<usize>, bound: nat)
        requires
            self.structure(),
            forall|x: usize| #[trigger] list.contains(x) ==> self.retirement(x) is Some,
            forall|a: usize| #[trigger]
                self.under(a, list) && self.occupied(a) ==> {
                    &&& self.instances.contains_key(a) == post.instances.contains_key(a)
                    &&& self.collectors.contains_key(a) == post.collectors.contains_key(a)
                    &&& self.instances.contains_key(a) ==> self.instances[a] == post.instances[a]
                    &&& self.collectors.contains_key(a) ==> self.collectors[a]
                        == post.collectors[a]
                },
        ensures
            self.contents(list, bound) == post.contents(list, bound),
        decreases bound, list.len(),
    {
        if list.len() > 0 {
            let x = list[0];
            assert(list.contains(x));
            assert(self.under(x, list));
            assert(self.retirement(x) is Some);
            assert(self.occupied(x));
            if self.collectors.contains_key(x) && self.rank(x) < bound {
                let collector = self.collectors[x];
                assert forall|y: usize| #[trigger] collector.holds(y) implies self.retirement(
                    y,
                ) is Some by {
                    assert(self.keeps(x, y));
                }
                assert forall|a: usize| #[trigger]
                    self.under(a, collector.previous) implies self.under(a, list) by {
                    self.lemma_under_within(a, x, collector.previous, list);
                }
                assert forall|a: usize| #[trigger]
                    self.under(a, collector.current) implies self.under(a, list) by {
                    self.lemma_under_within(a, x, collector.current, list);
                }
                assert forall|a: usize| #[trigger]
                    self.under(a, collector.next) implies self.under(a, list) by {
                    self.lemma_under_within(a, x, collector.next, list);
                }
                assert forall|y: usize| #[trigger] collector.previous.contains(
                    y,
                ) implies self.retirement(y) is Some by {
                    assert(collector.holds(y));
                }
                assert forall|y: usize| #[trigger] collector.current.contains(
                    y,
                ) implies self.retirement(y) is Some by {
                    assert(collector.holds(y));
                }
                assert forall|y: usize| #[trigger] collector.next.contains(
                    y,
                ) implies self.retirement(y) is Some by {
                    assert(collector.holds(y));
                }
                self.lemma_contents_frame(post, collector.previous, self.rank(x));
                self.lemma_contents_frame(post, collector.current, self.rank(x));
                self.lemma_contents_frame(post, collector.next, self.rank(x));
            }
            assert forall|y: usize| #[trigger] list.skip(1).contains(y) implies self.retirement(
                y,
            ) is Some by {
                let i = list.skip(1).index_of(y);
                assert(list[i + 1] == y);
                assert(list.contains(y));
            }
            assert forall|a: usize| #[trigger] self.under(a, list.skip(1)) implies self.under(
                a,
                list,
            ) by {
                self.lemma_under_split(a, list);
            }
            self.lemma_contents_frame(post, list.skip(1), bound);
        }
    }

    /// The contents of a list survive whatever leaves the domain with another list of the same
    /// collector.
    proof fn lemma_contents_apart(
        self,
        post: Self,
        c: usize,
        gone: Seq<usize>,
        list: Seq<usize>,
        bound: nat,
    )
        requires
            self.structure(),
            self.collectors.contains_key(c),
            self.only_removes(post, c, bound),
            bound == self.rank(c),
            forall|x: usize| #[trigger] gone.contains(x) ==> self.collectors[c].holds(x),
            forall|x: usize| #[trigger] list.contains(x) ==> self.collectors[c].holds(x),
            forall|x: usize| #[trigger] list.contains(x) ==> !gone.contains(x),
            forall|a: usize|
                self.occupied(a) && !self.under(a, gone) ==> #[trigger] post.occupied(a),
        ensures
            self.contents(list, bound) == post.contents(list, bound),
    {
        assert forall|x: usize| #[trigger] list.contains(x) implies self.retirement(x) is Some
            && self.retirement(x)->0.serial < bound by {
            assert(self.collectors[c].holds(x));
            assert(self.keeps(c, x));
        }
        assert forall|a: usize| #[trigger] self.under(a, list) && self.occupied(a) implies {
            &&& self.instances.contains_key(a) == post.instances.contains_key(a)
            &&& self.collectors.contains_key(a) == post.collectors.contains_key(a)
            &&& self.instances.contains_key(a) ==> self.instances[a] == post.instances[a]
            &&& self.collectors.contains_key(a) ==> self.collectors[a] == post.collectors[a]
        } by {
            self.lemma_under_rank(a, list, bound);
            assert(a != c);
            if self.under(a, gone) {
                self.lemma_under_apart_lists(a, c, gone, list);
            }
            assert(post.occupied(a));
        }
        self.lemma_contents_frame(post, list, bound);
    }

    /// Nothing is under two lists of one collector.
    proof fn lemma_under_apart_lists(
        self,
        a: usize,
        c: usize,
        gone: Seq<usize>,
        list: Seq<usize>,
    )
        requires
            self.structure(),
            self.collectors.contains_key(c),
            forall|x: usize| #[trigger] gone.contains(x) ==> self.collectors[c].holds(x),
            forall|x: usize| #[trigger] list.contains(x) ==> self.collectors[c].holds(x),
            forall|x: usize| #[trigger] list.contains(x) ==> !gone.contains(x),
            self.under(a, gone),
        ensures
            !self.under(a, list),
        decreases gone.len(),
    {
        if gone.len() == 0 {
            self.lemma_under_none(a, gone);
        } else {
            self.lemma_under_split(a, gone);
            assert(gone.contains(gone[0]));
            assert forall|x: usize| #[trigger] gone.skip(1).contains(x) implies gone.contains(x) by {
                let i = gone.skip(1).index_of(x);
                assert(gone[i + 1] == x);
            }
            if self.under(a, seq![gone[0]]) {
                self.lemma_under_apart(a, c, gone[0], list);
            } else {
                self.lemma_under_apart_lists(a, c, gone.skip(1), list);
            }
        }
    }

    /// What a list that leaves the domain adds to what is to be destroyed.
    #[verifier::spinoff_prover]
    #[verifier::rlimit(40)]
    pub proof fn lemma_drop_bag_contents(self, c: usize, bag: Bag, bound: nat)
        requires
            self.registered(c) ==> bag == Bag::Garbage,
            self.steady(),
            self.collectors.contains_key(c),
            bound == self.rank(c),
        ensures
            self.drop_bag(c, bag, bound).dropped =~= self.dropped + self.contents(
                self.collectors[c].bag(bag),
                bound,
            ),
        decreases bound, 0nat, self.collectors[c].bag(bag).len(),
    {
        let list = self.collectors[c].bag(bag);
        if list.len() > 0 {
            let x = list[0];
            self.collectors[c].lemma_shortened(bag);
            assert(self.keeps(c, x));
            if self.collectors.contains_key(x) {
                assert(self.retirement(x) is Some);
                assert(!self.registered(x));
                self.lemma_drop_bags_removes(x, self.rank(x));
                self.lemma_drop_bags_contents(x, self.rank(x));
                self.lemma_drop_bags(x, self.rank(x));
            }
            let emptied = if self.collectors.contains_key(x) && self.rank(x) < bound {
                self.drop_bags(x, self.rank(x))
            } else {
                self
            };
            let discarded = emptied.discard(c, bag);
            assert(self.occupied(x));
            assert(emptied.collectors[c] == self.collectors[c]);
            self.lemma_first_removed(c, bag, bound, discarded);
            assert(discarded.collectors[c].bag(bag) =~= list.skip(1));
            discarded.lemma_drop_bag_contents(c, bag, bound);
            let gone = seq![x];
            assert(gone[0] == x);
            assert forall|y: usize| #[trigger] list.skip(1).contains(
                y,
            ) implies self.collectors[c].holds(y) && !gone.contains(y) by {
                assert(self.collectors[c].with_bag(bag, list.skip(1)).holds(y));
            }
            assert forall|y: usize| #[trigger] gone.contains(y) implies self.collectors[c].holds(
                y,
            ) by {
                assert(y == x);
            }
            assert forall|a: usize| self.occupied(a) && !self.under(
                a,
                gone,
            ) implies #[trigger] discarded.occupied(a) by {}
            self.lemma_contents_apart(discarded, c, gone, list.skip(1), bound);
        }
    }

    /// What a collector that is emptied adds to what is to be destroyed.
    pub proof fn lemma_drop_bags_contents(self, c: usize, bound: nat)
        requires
            !self.registered(c),
            self.steady(),
            self.collectors.contains_key(c),
            bound == self.rank(c),
        ensures
            self.drop_bags(c, bound).dropped =~= self.dropped + (self.contents(
                self.collectors[c].previous,
                bound,
            ) + self.contents(self.collectors[c].current, bound) + self.contents(
                self.collectors[c].next,
                bound,
            )),
        decreases bound, 1nat, 0nat,
    {
        let collector = self.collectors[c];
        self.lemma_drop_bag(c, Bag::Previous, bound);
        self.lemma_drop_bag_removes(c, Bag::Previous, bound);
        self.lemma_drop_bag_contents(c, Bag::Previous, bound);
        let first = self.drop_bag(c, Bag::Previous, bound);
        first.lemma_drop_bag(c, Bag::Current, bound);
        first.lemma_drop_bag_removes(c, Bag::Current, bound);
        first.lemma_drop_bag_contents(c, Bag::Current, bound);
        let second = first.drop_bag(c, Bag::Current, bound);
        second.lemma_drop_bag(c, Bag::Next, bound);
        second.lemma_drop_bag_contents(c, Bag::Next, bound);
        assert forall|a: usize| self.occupied(a) && !self.under(
            a,
            collector.previous,
        ) implies #[trigger] first.occupied(a) by {
            assert(!self.removed(first, a));
        }
        assert forall|a: usize| first.occupied(a) && !first.under(
            a,
            collector.current,
        ) implies #[trigger] second.occupied(a) by {
            assert(!first.removed(second, a));
        }
        assert forall|x: usize| #[trigger] collector.previous.contains(x) implies collector.holds(
            x,
        ) by {}
        assert forall|x: usize| #[trigger] collector.current.contains(x) implies collector.holds(
            x,
        ) && first.collectors[c].holds(x) && !collector.previous.contains(x) by {}
        assert forall|x: usize| #[trigger] collector.next.contains(x) implies collector.holds(x)
            && first.collectors[c].holds(x) && !collector.previous.contains(x)
            && !collector.current.contains(x) by {}
        self.lemma_contents_apart(first, c, collector.previous, collector.current, bound);
        self.lemma_contents_apart(first, c, collector.previous, collector.next, bound);
        first.lemma_contents_apart(second, c, collector.current, collector.next, bound);
    }

    /// The first item of a list leaves the domain together with all that is under it, and nothing
    /// else does.
    pub proof fn lemma_drop_first_removes(self, c: usize, bag: Bag)
        requires
            self.registered(c) ==> bag == Bag::Garbage,
            self.steady(),
            self.collectors.contains_key(c),
            self.collectors[c].bag(bag).len() > 0,
        ensures
            forall|a: usize|
                self.occupied(a) ==> #[trigger] self.drop_first(c, bag).occupied(a) == !self.under(
                    a,
                    seq![self.collectors[c].bag(bag)[0]],
                ),
    {
        let x = self.collectors[c].bag(bag)[0];
        self.collectors[c].lemma_shortened(bag);
        assert(self.keeps(c, x));
        if self.collectors.contains_key(x) {
            self.lemma_drop_bags_removes(x, self.rank(x));
        }
        self.lemma_first_removed(c, bag, self.rank(c), self.drop_first(c, bag));
    }

    /// What the first item of a list that leaves the domain adds to what is to be destroyed.
    pub proof fn lemma_drop_first_contents(self, c: usize, bag: Bag)
        requires
            self.registered(c) ==> bag == Bag::Garbage,
            self.steady(),
            self.collectors.contains_key(c),
            self.collectors[c].bag(bag).len() > 0,
        ensures
            self.drop_first(c, bag).dropped == self.dropped + self.contents(
                seq![self.collectors[c].bag(bag)[0]],
                self.rank(c),
            ),
    {
        let x = self.collectors[c].bag(bag)[0];
        let list = seq![x];
        self.collectors[c].lemma_shortened(bag);
        assert(self.keeps(c, x));
        assert(self.occupied(x));
        assert(list[0] == x);
        assert(list.skip(1).len() == 0);
        assert(self.contents(list.skip(1), self.rank(c)) =~= Seq::empty());
        if self.collectors.contains_key(x) {
            assert(!self.instances.contains_key(x));
            assert(self.rank(x) < self.rank(c));
            self.lemma_drop_bags(x, self.rank(x));
            self.lemma_drop_bags_contents(x, self.rank(x));
            assert(!self.clear(x).instances.contains_key(x));
        }
        assert(self.drop_first(c, bag).dropped =~= self.dropped + self.contents(
            list,
            self.rank(c),
        ));
    }

    /// What is retired counts with all that it keeps, however late the collector that keeps it is
    /// retired.
    pub proof fn lemma_contents_bound(self, list: Seq<usize>, first: nat, second: nat)
        requires
            forall|x: usize| #[trigger]
                list.contains(x) ==> self.retirement(x) is Some && self.retirement(x)->0.serial
                    < first && self.retirement(x)->0.serial < second,
        ensures
            self.contents(list, first) == self.contents(list, second),
        decreases list.len(),
    {
        if list.len() > 0 {
            assert(list.contains(list[0]));
            assert forall|x: usize| #[trigger] list.skip(1).contains(x) implies list.contains(
                x,
            ) by {
                let i = list.skip(1).index_of(x);
                assert(list[i + 1] == x);
            }
            self.lemma_contents_bound(list.skip(1), first, second);
        }
    }

    /// What is kept by one of two collectors that have not been retired is not under what the other
    /// one keeps.
    proof fn lemma_under_roots(self, a: usize, c: usize, d: usize, first: Seq<usize>, second: Seq<usize>)
        requires
            self.structure(),
            c != d,
            self.collectors.contains_key(c),
            self.collectors.contains_key(d),
            self.collectors[c].retirement is None,
            self.collectors[d].retirement is None,
            forall|x: usize| #[trigger] first.contains(x) ==> self.collectors[c].holds(x),
            forall|x: usize| #[trigger] second.contains(x) ==> self.collectors[d].holds(x),
            self.under(a, first),
        ensures
            !self.under(a, second),
        decreases self.tokens - self.retirement(a)->0.serial,
    {
        if first.contains(a) {
            assert(self.collectors[c].holds(a));
            assert(self.keeps(c, a));
            if second.contains(a) {
                assert(self.collectors[d].holds(a));
                assert(self.keeps(d, a));
            }
        } else {
            let h = self.retirement(a)->0.holder;
            if second.contains(a) {
                assert(self.collectors[d].holds(a));
                assert(self.keeps(d, a));
            } else {
                self.lemma_under_roots(h, c, d, first, second);
            }
        }
    }

    /// What leaves the domain with all that a collector keeps.
    pub open spec fn contents_of(self, c: usize) -> Seq<Payload<T, F>> {
        self.contents(self.collectors[c].previous, self.rank(c)) + self.contents(
            self.collectors[c].current,
            self.rank(c),
        ) + self.contents(self.collectors[c].next, self.rank(c))
    }

    /// A collector loses nothing of what it keeps with another one.
    pub proof fn lemma_contents_roots(self, post: Self, c: usize, d: usize)
        requires
            self.steady(),
            !self.registered(c),
            c != d,
            self.collectors.contains_key(c),
            self.collectors.contains_key(d),
            self.collectors[c].retirement is None,
            self.collectors[d].retirement is None,
            post == self.clear(c).remove_temporary(c),
        ensures
            post.collectors.contains_key(d),
            post.collectors[d] == self.collectors[d],
            post.contents_of(d) == self.contents_of(d),
    {
        let cleared = self.clear(c);
        let collector = self.collectors[c];
        self.lemma_drop_bags(c, self.rank(c));
        self.lemma_drop_bags_removes(c, self.rank(c));
        assert(post.collectors[d] == self.collectors[d]);
        assert(post.rank(d) == self.rank(d));
        self.lemma_contents_root_list(post, c, d, self.collectors[d].previous, self.rank(d));
        self.lemma_contents_root_list(post, c, d, self.collectors[d].current, self.rank(d));
        self.lemma_contents_root_list(post, c, d, self.collectors[d].next, self.rank(d));
    }

    /// See [`Model::lemma_contents_roots`].
    proof fn lemma_contents_root_list(
        self,
        post: Self,
        c: usize,
        d: usize,
        list: Seq<usize>,
        bound: nat,
    )
        requires
            self.steady(),
            !self.registered(c),
            c != d,
            self.collectors.contains_key(c),
            self.collectors.contains_key(d),
            self.collectors[c].retirement is None,
            self.collectors[d].retirement is None,
            post == self.clear(c).remove_temporary(c),
            forall|x: usize| #[trigger] list.contains(x) ==> self.collectors[d].holds(x),
        ensures
            post.contents(list, bound) == self.contents(list, bound),
    {
        let cleared = self.clear(c);
        let collector = self.collectors[c];
        self.lemma_drop_bags(c, self.rank(c));
        self.lemma_drop_bags_removes(c, self.rank(c));
        assert forall|x: usize| #[trigger] list.contains(x) implies self.retirement(x) is Some by {
            assert(self.collectors[d].holds(x));
            assert(self.keeps(d, x));
        }
        assert forall|a: usize| #[trigger] self.under(a, list) && self.occupied(a) implies {
            &&& self.instances.contains_key(a) == post.instances.contains_key(a)
            &&& self.collectors.contains_key(a) == post.collectors.contains_key(a)
            &&& self.instances.contains_key(a) ==> self.instances[a] == post.instances[a]
            &&& self.collectors.contains_key(a) ==> self.collectors[a] == post.collectors[a]
        } by {
            self.lemma_under_roots(a, d, c, list, collector.previous);
            self.lemma_under_roots(a, d, c, list, collector.current);
            self.lemma_under_roots(a, d, c, list, collector.next);
            assert(!self.removed(cleared, a));
            assert(cleared.occupied(a));
            assert(a != c) by {
                if list.contains(c) {
                    assert(self.retirement(c) is Some);
                }
            }
            if cleared.collectors.contains_key(a) {
                assert(self.collectors.contains_key(a));
            } else {
                assert(cleared.instances.contains_key(a));
                assert(self.instances.contains_key(a));
            }
        }
        self.lemma_contents_frame(post, list, bound);
    }

    /// The number of instances, and of what is left to be destroyed of them.
    pub open spec fn stock(self) -> nat {
        self.instances.dom().len() + self.dropped.len()
    }

    /// The first item of a list leaves the domain, and is to be destroyed if it is an instance.
    proof fn lemma_discard_stock(self, c: usize, bag: Bag)
        requires
            self.instances.dom().finite(),
        ensures
            self.discard(c, bag).stock() == self.stock(),
    {
        let x = self.collectors[c].bag(bag)[0];
        assert(self.instances.remove(x).dom() =~= self.instances.dom().remove(x));
    }

    /// Whatever leaves the domain with a list is to be destroyed once.
    pub proof fn lemma_drop_bag_stock(self, c: usize, bag: Bag, bound: nat)
        requires
            self.registered(c) ==> bag == Bag::Garbage,
            self.steady(),
            self.collectors.contains_key(c),
            bound == self.rank(c),
        ensures
            self.drop_bag(c, bag, bound).stock() == self.stock(),
        decreases bound, 0nat, self.collectors[c].bag(bag).len(),
    {
        let list = self.collectors[c].bag(bag);
        if list.len() > 0 {
            let x = list[0];
            self.collectors[c].lemma_shortened(bag);
            assert(self.collectors[c].holds(x));
            assert(self.keeps(c, x));
            self.lemma_drop_first(c, bag);
            if self.collectors.contains_key(x) {
                self.lemma_drop_bags_stock(x, self.rank(x));
                self.clear(x).lemma_discard_stock(c, bag);
            } else {
                self.lemma_discard_stock(c, bag);
            }
            self.drop_first(c, bag).lemma_drop_bag_stock(c, bag, bound);
        }
    }

    /// Whatever leaves the domain with all that a collector keeps is to be destroyed once.
    pub proof fn lemma_drop_bags_stock(self, c: usize, bound: nat)
        requires
            !self.registered(c),
            self.steady(),
            self.collectors.contains_key(c),
            bound == self.rank(c),
        ensures
            self.drop_bags(c, bound).stock() == self.stock(),
        decreases bound, 1nat, 0nat,
    {
        self.lemma_drop_bag(c, Bag::Previous, bound);
        self.lemma_drop_bag_stock(c, Bag::Previous, bound);
        let first = self.drop_bag(c, Bag::Previous, bound);
        first.lemma_drop_bag(c, Bag::Current, bound);
        first.lemma_drop_bag_stock(c, Bag::Current, bound);
        let second = first.drop_bag(c, Bag::Current, bound);
        second.lemma_drop_bag_stock(c, Bag::Next, bound);
    }
}

} // verus!

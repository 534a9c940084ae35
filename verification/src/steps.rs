//! Every step of a thread keeps the domain valid.

use crate::model;
use crate::model::{CollectorModel, Lock, Model, Payload};
use crate::Tag;
use vstd::prelude::*;

verus! {

impl<T, F> Model<T, F> {
    /// The collector may be replaced by another that keeps the same.
    pub open spec fn replaceable(self, c: usize, collector: CollectorModel, tokens: nat) -> bool {
        let post = Model { tokens, ..self.with(c, collector) };
        &&& self.tokens <= tokens
        &&& self.collectors.contains_key(c)
        &&& collector.retirement is None
        &&& self.collectors[c].retirement is None
        &&& collector.distinct()
        &&& collector.invalid ==> collector.garbage.len() == 0
        &&& forall|x: usize| #[trigger] collector.holds(x) == self.collectors[c].holds(x)
        &&& !self.registered(c) ==> collector.inactive && !collector.invalid && collector.pending is None
        &&& collector.local_ok()
        &&& collector.seen <= self.epoch
        &&& collector.session < tokens
        &&& forall|guard: nat| #[trigger] collector.guards.contains(guard) ==> guard < tokens
        &&& collector.pending is Some ==> collector.pending->0 <= self.epoch
        &&& self.registered(c) ==> collector.flag_ok()
        &&& self.registered(c) && collector.active() ==> self.epoch <= collector.seen + 1
        &&& self.registered(c) && collector.pending is Some ==> self.epoch <= collector.pending->0 + 1
        &&& forall|x: usize| #[trigger] collector.holds(x) ==> post.stamp_ok(c, x)
        &&& self.registered(c) && collector.active() ==> forall|a: usize|
            (#[trigger] self.retirement(a)) is Some && self.retirement(a)->0.readers.contains(
                collector.session,
            ) ==> collector.seen <= self.retirement(a)->0.stamp
        &&& self.lock matches Lock::Scan(scan) ==> {
            &&& scan.scanner == c ==> {
                &&& collector.active()
                &&& collector.num_readers == 0
                &&& collector.seen == scan.known
            }
            &&& self.passed(scan.rest).contains(c) ==> post.caught_up(c, scan.known)
        }
        &&& self.lock matches Lock::Clear(clear) ==> clear.walked.contains(c) ==> collector.invalid
        &&& collector.invalid ==> !self.locals.contains(c)
    }

    /// See [`Model::replaceable`].
    pub proof fn lemma_replace(self, c: usize, collector: CollectorModel, tokens: nat)
        requires
            self.inv(),
            self.replaceable(c, collector, tokens),
        ensures
            (Model { tokens, ..self.with(c, collector) }).inv(),
    {
        let post = Model { tokens, ..self.with(c, collector) };
        assert forall|a: usize| #[trigger] post.retirement(a) == self.retirement(a) by {}
        assert forall|a: usize| #[trigger] post.occupied(a) == self.occupied(a) by {}
        assert forall|a: usize| #[trigger] post.registered(a) == self.registered(a) by {}
        assert forall|d: usize, x: usize|
            post.collectors.contains_key(d) && #[trigger] post.collectors[d].holds(
                x,
            ) implies self.collectors[d].holds(x) by {}
        assert(post.space_ok());
        assert(post.chain_ok());
        assert(post.bags_ok());
        assert(post.held_ok()) by {
            assert forall|a: usize| (#[trigger] post.retirement(a)) is Some implies {
                let retirement = post.retirement(a)->0;
                &&& post.collectors.contains_key(retirement.holder)
                &&& post.collectors[retirement.holder].holds(a)
                &&& retirement.serial < post.tokens
            } by {
                assert(self.retirement(a) is Some);
            }
        }
        assert(post.instances_ok());
        assert(post.outside_ok()) by {
            assert forall|a: usize|
                (#[trigger] post.retirement(a)) is Some && !post.registered(
                    post.retirement(a)->0.holder,
                ) && post.collectors[post.retirement(a)->0.holder].retirement is None implies
                post.retirement(a)->0.readers =~= Set::empty() && post.instances.contains_key(a) by {
                assert(self.retirement(a) is Some);
            }
        }
        assert(post.epochs_ok());
        assert(post.stamps_ok()) by {
            assert forall|a: usize| (#[trigger] post.retirement(a)) is Some implies post.retirement(
                a,
            )->0.stamp <= post.epoch by {
                assert(self.retirement(a) is Some);
            }
            assert forall|d: usize, x: usize|
                post.collectors.contains_key(d) && #[trigger] post.collectors[d].holds(
                    x,
                ) implies post.stamp_ok(d, x) by {
                if d != c {
                    assert(self.collectors[d].holds(x));
                    assert(self.stamp_ok(d, x));
                }
            }
        }
        assert(post.readers_ok()) by {
            assert forall|a: usize, s: nat|
                (#[trigger] post.retirement(a)) is Some && #[trigger] post.retirement(
                    a,
                )->0.readers.contains(s) implies s < post.tokens by {
                assert(self.retirement(a) is Some);
            }
            assert forall|a: usize, d: usize|
                (#[trigger] post.retirement(a)) is Some && #[trigger] post.pinned(d)
                    && post.retirement(a)->0.readers.contains(
                    post.collectors[d].session,
                ) implies post.collectors[d].seen <= post.retirement(a)->0.stamp by {
                assert(self.retirement(a) is Some);
                if d != c {
                    assert(self.pinned(d));
                }
            }
        }
        assert(post.lock_ok()) by {
            match self.lock {
                Lock::Scan(scan) => {
                    assert(post.passed(scan.rest) == self.passed(scan.rest));
                    assert forall|d: usize| #[trigger]
                        post.passed(scan.rest).contains(d) implies post.caught_up(
                        d,
                        scan.known,
                    ) by {
                        assert(self.passed(scan.rest).contains(d));
                        assert(self.caught_up(d, scan.known));
                    }
                },
                Lock::Clear(clear) => {
                    assert forall|d: usize| #[trigger]
                        clear.walked.contains(d) implies post.collectors[d].invalid by {}
                },
                Lock::Free => {},
            }
        }
        assert(post.locals_ok());
    }

    /// See [`Model::enter`].
    pub proof fn lemma_enter(self, c: usize)
        requires
            self.inv(),
            self.registered(c),
            self.collectors[c].num_readers == 0,
            self.collectors[c].settled(),
            !self.collectors[c].invalid,
        ensures
            self.enter(c).inv(),
    {
        let collector = self.enter(c).collectors[c];
        assert forall|x: usize| #[trigger] collector.holds(x) implies self.enter(c).stamp_ok(
            c,
            x,
        ) by {
            assert(self.collectors[c].holds(x));
            assert(self.keeps(c, x));
            assert(self.stamp_ok(c, x));
        }
        self.lemma_replace(c, collector, self.tokens);
    }

    /// See [`Model::announce`]: the lists of the collector are due to be moved on if the
    /// announcement is a new one.
    pub proof fn lemma_announce(self, c: usize)
        requires
            self.inv(),
            self.registered(c),
            self.collectors[c].pending is Some,
        ensures
            self.announce(c).inv(),
            self.announce(c).collectors[c].announcement != self.collectors[c].announcement
                ==> self.announce(c).due(c),
    {
        let post = self.announce(c);
        let collector = post.collectors[c];
        assert forall|a: usize| #[trigger] post.retirement(a) == self.retirement(a) by {}
        assert forall|x: usize| #[trigger] collector.holds(x) implies post.stamp_ok(c, x) by {
            assert(self.collectors[c].holds(x));
            assert(self.keeps(c, x));
            assert(self.stamp_ok(c, x));
        }
        self.lemma_replace(c, collector, self.tokens + 1);
        if collector.announcement != self.collectors[c].announcement {
            assert forall|x: usize| #[trigger] collector.holds(x) implies {
                let stamp = post.retirement(x)->0.stamp;
                &&& collector.current.contains(x) ==> stamp <= collector.seen
                &&& collector.previous.contains(x) ==> stamp + 1 <= collector.seen
                &&& collector.next.contains(x) ==> stamp + 2 <= collector.seen
            } by {
                assert(self.collectors[c].holds(x));
                assert(self.stamp_ok(c, x));
            }
        }
    }

    /// See [`Model::nest`].
    pub proof fn lemma_nest(self, c: usize)
        requires
            self.inv(),
            self.collectors.contains_key(c),
            self.collectors[c].retirement is None,
            0 < self.collectors[c].num_readers < u32::MAX,
            self.collectors[c].settled(),
            !self.collectors[c].invalid,
        ensures
            self.nest(c).inv(),
    {
        let post = self.nest(c);
        let collector = post.collectors[c];
        assert(!self.collectors[c].guards.contains(self.tokens));
        assert forall|x: usize| #[trigger] collector.holds(x) implies post.stamp_ok(c, x) by {
            assert(self.collectors[c].holds(x));
            assert(self.keeps(c, x));
            assert(self.stamp_ok(c, x));
        }
        assert(self.registered(c) ==> self.pinned(c));
        self.lemma_replace(c, collector, self.tokens + 1);
    }

    /// See [`Model::rotate`].
    pub proof fn lemma_rotate(self, c: usize)
        requires
            self.inv(),
            self.registered(c),
            self.collectors[c].num_readers > 0,
            self.collectors[c].settled(),
            !self.collectors[c].invalid,
            self.due(c),
        ensures
            self.rotate(c).inv(),
    {
        let post = self.rotate(c);
        let collector = post.collectors[c];
        assert forall|x: usize| #[trigger] collector.holds(x) implies post.stamp_ok(c, x) by {
            assert(self.collectors[c].holds(x));
            assert(self.keeps(c, x));
            assert(self.stamp_ok(c, x));
        }
        assert(self.pinned(c));
        self.lemma_replace(c, collector, self.tokens);
    }

    /// See [`Model::leave`].
    pub proof fn lemma_leave(self, c: usize, guard: nat)
        requires
            self.inv(),
            self.collectors.contains_key(c),
            self.collectors[c].retirement is None,
            !self.collectors[c].invalid,
            self.collectors[c].guards.contains(guard),
            self.collectors[c].pending is None,
            self.collectors[c].num_readers == 1 ==> self.collectors[c].garbage.len() == 0,
            self.usable(c, guard),
        ensures
            self.leave(c, guard).inv(),
            self.collectors[c].num_readers > 0,
            self.registered(c),
    {
        let post = self.leave(c, guard);
        let collector = post.collectors[c];
        assert(self.collectors[c].guards.len() > 0);
        assert forall|x: usize| #[trigger] collector.holds(x) implies post.stamp_ok(c, x) by {
            assert(self.collectors[c].holds(x));
            assert(self.keeps(c, x));
            assert(self.stamp_ok(c, x));
        }
        assert(self.registered(c) ==> self.pinned(c));
        self.lemma_replace(c, collector, self.tokens);
    }

    /// See [`Model::retreat`].
    pub proof fn lemma_retreat(self, c: usize)
        requires
            self.inv(),
            self.registered(c),
            self.collectors[c].num_readers == 0,
            self.collectors[c].pending is None,
            !self.collectors[c].invalid,
            !self.scanning(c),
        ensures
            self.retreat(c).inv(),
    {
        let post = self.retreat(c);
        let collector = post.collectors[c];
        assert forall|x: usize| #[trigger] collector.holds(x) implies post.stamp_ok(c, x) by {
            assert(self.collectors[c].holds(x));
            assert(self.keeps(c, x));
            assert(self.stamp_ok(c, x));
        }
        self.lemma_replace(c, collector, self.tokens);
    }

    /// See [`Model::invalidate`].
    pub proof fn lemma_invalidate(self, c: usize)
        requires
            self.inv(),
            self.registered(c),
            self.collectors[c].garbage.len() == 0,
            self.collectors[c].pending is None,
            !self.scanning(c),
            !self.locals.contains(c),
        ensures
            self.invalidate(c).inv(),
    {
        let post = self.invalidate(c);
        let collector = post.collectors[c];
        assert forall|x: usize| #[trigger] collector.holds(x) implies post.stamp_ok(c, x) by {
            assert(self.collectors[c].holds(x));
            assert(self.keeps(c, x));
            assert(self.stamp_ok(c, x));
        }
        self.lemma_replace(c, collector, self.tokens);
    }

    /// See [`Model::hasten`].
    pub proof fn lemma_hasten(self, c: usize)
        requires
            self.inv(),
            self.collectors.contains_key(c),
            self.collectors[c].retirement is None,
            !self.collectors[c].invalid,
        ensures
            self.hasten(c).inv(),
    {
        let post = self.hasten(c);
        let collector = post.collectors[c];
        assert forall|x: usize| #[trigger] collector.holds(x) implies post.stamp_ok(c, x) by {
            assert(self.collectors[c].holds(x));
            assert(self.keeps(c, x));
            assert(self.stamp_ok(c, x));
        }
        assert(self.pinned(c) || !self.registered(c) || self.collectors[c].inactive);
        self.lemma_replace(c, collector, self.tokens);
    }

    /// See [`Model::recollect`].
    pub proof fn lemma_recollect(self, c: usize)
        requires
            self.inv(),
            self.registered(c),
            self.collectors[c].garbage.len() > 0,
            self.collectors[c].settled(),
        ensures
            self.recollect(c).inv(),
    {
        let post = self.recollect(c);
        let old_collector = self.collectors[c];
        let collector = post.collectors[c];
        let x0 = old_collector.garbage[0];
        assert(old_collector.garbage.contains(x0));
        assert(collector.current[0] == x0);
        assert forall|x: usize| #[trigger] collector.current.contains(x) == (x == x0
            || old_collector.current.contains(x)) by {
            if old_collector.current.contains(x) {
                let i = old_collector.current.index_of(x);
                assert(collector.current[i + 1] == x);
            }
        }
        assert forall|x: usize| #[trigger] old_collector.garbage.contains(x) == (x == x0
            || collector.garbage.contains(x)) by {
            if old_collector.garbage.contains(x) && x != x0 {
                let i = old_collector.garbage.index_of(x);
                assert(collector.garbage[i - 1] == x);
            }
        }
        assert(!collector.garbage.contains(x0));
        assert(collector.distinct());
        assert forall|x: usize| #[trigger] collector.holds(x) implies post.stamp_ok(c, x) by {
            assert(self.collectors[c].holds(x));
            assert(self.keeps(c, x));
            assert(self.stamp_ok(c, x));
        }
        assert(self.pinned(c));
        self.lemma_replace(c, collector, self.tokens);
    }

    /// Only the words that the chain's lock consists of, and those of the threads, differ.
    pub open spec fn same_nodes(self, post: Self) -> bool {
        &&& post.epoch == self.epoch
        &&& post.chain == self.chain
        &&& post.collectors == self.collectors
        &&& post.instances == self.instances
        &&& post.tokens == self.tokens
    }

    /// See [`Model::same_nodes`].
    pub proof fn lemma_same_nodes(self, post: Self)
        requires
            self.inv(),
            self.same_nodes(post),
            post.lock_ok(),
            post.locals_ok(),
        ensures
            post.inv(),
    {
        assert forall|a: usize| #[trigger] post.retirement(a) == self.retirement(a) by {}
        assert forall|a: usize| #[trigger] post.occupied(a) == self.occupied(a) by {}
        assert forall|a: usize| #[trigger] post.registered(a) == self.registered(a) by {}
        assert forall|a: usize| #[trigger] post.pinned(a) == self.pinned(a) by {}
        assert forall|c: usize, x: usize|
            post.collectors.contains_key(c) && #[trigger] post.collectors[c].holds(
                x,
            ) implies post.keeps(c, x) && post.stamp_ok(c, x) by {
            assert(self.keeps(c, x));
            assert(self.stamp_ok(c, x));
        }
        assert(post.held_ok()) by {
            assert forall|a: usize| (#[trigger] post.retirement(a)) is Some implies {
                let retirement = post.retirement(a)->0;
                &&& post.collectors.contains_key(retirement.holder)
                &&& post.collectors[retirement.holder].holds(a)
                &&& retirement.serial < post.tokens
            } by {
                assert(self.retirement(a) is Some);
            }
        }
        assert(post.outside_ok()) by {
            assert forall|a: usize|
                (#[trigger] post.retirement(a)) is Some && !post.registered(
                    post.retirement(a)->0.holder,
                ) && post.collectors[post.retirement(a)->0.holder].retirement is None implies
                post.retirement(a)->0.readers =~= Set::empty() && post.instances.contains_key(a) by {
                assert(self.retirement(a) is Some);
            }
        }
        assert(post.stamps_ok()) by {
            assert forall|a: usize| (#[trigger] post.retirement(a)) is Some implies post.retirement(
                a,
            )->0.stamp <= post.epoch by {
                assert(self.retirement(a) is Some);
            }
        }
        assert(post.readers_ok()) by {
            assert forall|a: usize, s: nat|
                (#[trigger] post.retirement(a)) is Some && #[trigger] post.retirement(
                    a,
                )->0.readers.contains(s) implies s < post.tokens by {
                assert(self.retirement(a) is Some);
            }
            assert forall|a: usize, d: usize|
                (#[trigger] post.retirement(a)) is Some && #[trigger] post.pinned(d)
                    && post.retirement(a)->0.readers.contains(
                    post.collectors[d].session,
                ) implies post.collectors[d].seen <= post.retirement(a)->0.stamp by {
                assert(self.retirement(a) is Some);
                assert(self.pinned(d));
            }
        }
    }

    /// The mark on the chain is nothing to whoever has locked it.
    pub proof fn lemma_lock_frame(self, post: Self)
        requires
            self.lock_ok(),
            self.same_nodes(post),
            post.lock == self.lock,
            post.tag == self.tag || (post.tag == Tag::Both && self.tag == Tag::First) || (post.tag
                == Tag::Second && self.tag == Tag::Neither),
        ensures
            post.lock_ok(),
    {
        match self.lock {
            Lock::Scan(scan) => {
                assert(post.passed(scan.rest) == self.passed(scan.rest));
                assert forall|d: usize| #[trigger]
                    post.passed(scan.rest).contains(d) implies post.caught_up(d, scan.known) by {
                    assert(self.passed(scan.rest).contains(d));
                    assert(self.caught_up(d, scan.known));
                }
            },
            _ => {},
        }
    }

    /// See [`Model::attach`].
    pub proof fn lemma_attach(self)
        requires
            self.inv(),
        ensures
            self.attach().inv(),
    {
        self.lemma_lock_frame(self.attach());
        self.lemma_same_nodes(self.attach());
    }

    /// See [`Model::set_local`].
    pub proof fn lemma_set_local(self, thread: int, c: usize)
        requires
            self.inv(),
            0 <= thread < self.locals.len(),
            c != 0 ==> {
                &&& self.collectors.contains_key(c)
                &&& self.collectors[c].retirement is None
                &&& !self.collectors[c].invalid
                &&& !self.locals.contains(c)
            },
        ensures
            self.set_local(thread, c).inv(),
    {
        let post = self.set_local(thread, c);
        self.lemma_lock_frame(post);
        assert(post.locals_ok());
        self.lemma_same_nodes(post);
    }

    /// See [`Model::mark`].
    pub proof fn lemma_mark(self)
        requires
            self.inv(),
        ensures
            self.mark().inv(),
    {
        self.lemma_lock_frame(self.mark());
        self.lemma_same_nodes(self.mark());
    }

    /// See [`Model::unlock`].
    pub proof fn lemma_unlock(self)
        requires
            self.inv(),
        ensures
            self.unlock().inv(),
    {
        self.lemma_same_nodes(self.unlock());
    }

    /// See [`Model::scan_lock`].
    pub proof fn lemma_scan_lock(self, c: usize)
        requires
            self.inv(),
            self.lock is Free,
            self.registered(c),
            self.collectors[c].active(),
            self.collectors[c].num_readers == 0,
        ensures
            self.scan_lock(c).inv(),
    {
        let post = self.scan_lock(c);
        assert(post.passed(self.chain) =~= Seq::empty());
        assert(self.chain.is_suffix_of(post.chain));
        self.lemma_same_nodes(post);
    }

    /// See [`Model::clear_lock`].
    pub proof fn lemma_clear_lock(self)
        requires
            self.inv(),
            self.lock is Free,
        ensures
            self.clear_lock().inv(),
    {
        let post = self.clear_lock();
        assert(Seq::<usize>::empty() + self.chain =~= self.chain);
        self.lemma_same_nodes(post);
    }

    /// What splitting the chain in two means.
    pub proof fn lemma_passed(self, rest: Seq<usize>)
        requires
            rest.is_suffix_of(self.chain),
            rest.len() > 0,
        ensures
            rest.skip(1).is_suffix_of(self.chain),
            self.passed(rest.skip(1)) == self.passed(rest).push(rest[0]),
            self.chain == self.passed(rest) + rest,
            self.registered(rest[0]),
            self.chain[self.passed(rest).len() as int] == rest[0],
    {
        let n = self.chain.len() - rest.len();
        assert(self.chain.subrange(n, self.chain.len() as int) =~= rest);
        assert(self.chain[n] == rest[0]);
        assert(self.passed(rest.skip(1)) =~= self.passed(rest).push(rest[0]));
        assert(self.chain =~= self.passed(rest) + rest);
        assert(self.chain.subrange(n + 1, self.chain.len() as int) =~= rest.skip(1));
    }

    /// See [`Model::scan_pass`].
    pub proof fn lemma_scan_pass(self)
        requires
            self.inv(),
            self.lock matches Lock::Scan(scan) && scan.rest.len() > 0 && {
                ||| scan.rest[0] == scan.scanner
                ||| self.collectors[scan.rest[0]].state() == self.collectors[scan.scanner].state()
                ||| self.collectors[scan.rest[0]].invalid
            },
        ensures
            self.scan_pass().inv(),
    {
        let scan = self.lock->Scan_0;
        let post = self.scan_pass();
        let x = scan.rest[0];
        self.lemma_passed(scan.rest);
        assert(post.passed(scan.rest.skip(1)) == self.passed(scan.rest).push(x));
        assert(self.collectors[x].local_ok());
        assert(self.collectors[scan.scanner].local_ok());
        assert(self.caught_up(x, scan.known));
        assert forall|d: usize| #[trigger]
            post.passed(scan.rest.skip(1)).contains(d) implies post.caught_up(d, scan.known) by {
            if d != x {
                assert(self.passed(scan.rest).contains(d));
            }
            assert(self.caught_up(d, scan.known));
        }
        self.lemma_same_nodes(post);
    }

    /// See [`Model::clear_pass`].
    pub proof fn lemma_clear_pass(self)
        requires
            self.inv(),
            self.lock matches Lock::Clear(clear) && clear.rest.len() > 0
                && self.collectors[clear.rest[0]].invalid,
        ensures
            self.clear_pass().inv(),
    {
        let clear = self.lock->Clear_0;
        let post = self.clear_pass();
        assert(clear.walked.push(clear.rest[0]) + clear.rest.skip(1) =~= clear.walked + clear.rest);
        assert forall|d: usize| #[trigger]
            clear.walked.push(clear.rest[0]).contains(d) implies post.collectors[d].invalid by {
            if d != clear.rest[0] {
                assert(clear.walked.contains(d));
            }
        }
        self.lemma_same_nodes(post);
    }

    /// See [`Model::scan_advance`].
    pub proof fn lemma_scan_advance(self)
        requires
            self.inv(),
            self.lock matches Lock::Scan(scan) && scan.rest.len() == 0,
        ensures
            self.scan_advance().inv(),
            self.epoch <= self.scan_advance().epoch <= self.epoch + 1,
    {
        let scan = self.lock->Scan_0;
        let post = self.scan_advance();
        assert(self.passed(scan.rest) =~= self.chain);
        assert(self.pinned(scan.scanner));
        assert forall|a: usize| #[trigger] post.retirement(a) == self.retirement(a) by {}
        assert forall|a: usize| #[trigger] post.occupied(a) == self.occupied(a) by {}
        assert forall|a: usize| #[trigger] post.registered(a) == self.registered(a) by {}
        assert forall|a: usize| #[trigger] post.pinned(a) == self.pinned(a) by {}
        assert(post.epochs_ok()) by {
            assert forall|c: usize| #[trigger] post.registered(c) implies self.caught_up(
                c,
                scan.known,
            ) by {
                assert(self.passed(scan.rest).contains(c));
            }
        }
        assert forall|c: usize, x: usize|
            post.collectors.contains_key(c) && #[trigger] post.collectors[c].holds(
                x,
            ) implies post.keeps(c, x) && post.stamp_ok(c, x) by {
            assert(self.keeps(c, x));
            assert(self.stamp_ok(c, x));
        }
        assert(post.held_ok()) by {
            assert forall|a: usize| (#[trigger] post.retirement(a)) is Some implies {
                let retirement = post.retirement(a)->0;
                &&& post.collectors.contains_key(retirement.holder)
                &&& post.collectors[retirement.holder].holds(a)
                &&& retirement.serial < post.tokens
            } by {
                assert(self.retirement(a) is Some);
            }
        }
        assert(post.outside_ok()) by {
            assert forall|a: usize|
                (#[trigger] post.retirement(a)) is Some && !post.registered(
                    post.retirement(a)->0.holder,
                ) && post.collectors[post.retirement(a)->0.holder].retirement is None implies
                post.retirement(a)->0.readers =~= Set::empty() && post.instances.contains_key(a) by {
                assert(self.retirement(a) is Some);
            }
        }
        assert(post.stamps_ok()) by {
            assert forall|a: usize| (#[trigger] post.retirement(a)) is Some implies post.retirement(
                a,
            )->0.stamp <= post.epoch by {
                assert(self.retirement(a) is Some);
            }
        }
        assert(post.readers_ok()) by {
            assert forall|a: usize, s: nat|
                (#[trigger] post.retirement(a)) is Some && #[trigger] post.retirement(
                    a,
                )->0.readers.contains(s) implies s < post.tokens by {
                assert(self.retirement(a) is Some);
            }
            assert forall|a: usize, d: usize|
                (#[trigger] post.retirement(a)) is Some && #[trigger] post.pinned(d)
                    && post.retirement(a)->0.readers.contains(
                    post.collectors[d].session,
                ) implies post.collectors[d].seen <= post.retirement(a)->0.stamp by {
                assert(self.retirement(a) is Some);
                assert(self.pinned(d));
            }
        }
        assert(post.lock_ok()) by {
            assert(post.passed(scan.rest) == self.passed(scan.rest));
            assert forall|d: usize| #[trigger]
                post.passed(scan.rest).contains(d) implies post.caught_up(d, scan.known) by {
                assert(self.passed(scan.rest).contains(d));
                assert(self.caught_up(d, scan.known));
            }
        }
    }

    /// A collector that keeps nothing comes into being.
    pub proof fn lemma_enlist(self, c: usize)
        requires
            self.inv(),
            !self.occupied(c),
            c != 0,
            c % 4 == 0,
        ensures
            self.enlist(c).inv(),
    {
        let post = self.enlist(c);
        assert(!self.registered(c));
        assert forall|a: usize| #[trigger] post.registered(a) == (a == c || self.registered(a)) by {
            if self.registered(a) {
                let i = self.chain.index_of(a);
                assert(post.chain[i + 1] == a);
            }
            if post.registered(a) && a != c {
                let i = post.chain.index_of(a);
                assert(self.chain[i - 1] == a);
            }
            assert(post.chain[0] == c);
        }
        assert forall|a: usize| #[trigger] post.retirement(a) == self.retirement(a) by {}
        assert forall|a: usize| #[trigger] post.occupied(a) == (a == c || self.occupied(a)) by {}
        self.lemma_added(post, c);
        assert(post.chain.no_duplicates());
        assert(post.chain_ok());
        assert(post.lock_ok()) by {
            match self.lock {
                Lock::Scan(scan) => {
                    assert(post.passed(scan.rest) =~= seq![c] + self.passed(scan.rest));
                    assert(post.chain.subrange(
                        post.chain.len() - scan.rest.len(),
                        post.chain.len() as int,
                    ) =~= self.chain.subrange(
                        self.chain.len() - scan.rest.len(),
                        self.chain.len() as int,
                    ));
                    assert forall|d: usize| #[trigger]
                        post.passed(scan.rest).contains(d) implies post.caught_up(
                        d,
                        scan.known,
                    ) by {
                        if d != c {
                            let i = post.passed(scan.rest).index_of(d);
                            assert(self.passed(scan.rest)[i - 1] == d);
                            assert(self.passed(scan.rest).contains(d));
                            assert(self.caught_up(d, scan.known));
                        }
                    }
                },
                Lock::Clear(clear) => {
                    let tail = clear.walked + clear.rest;
                    assert(post.chain.subrange(
                        post.chain.len() - tail.len(),
                        post.chain.len() as int,
                    ) =~= self.chain.subrange(
                        self.chain.len() - tail.len(),
                        self.chain.len() as int,
                    ));
                    assert forall|d: usize| #[trigger]
                        clear.walked.contains(d) implies post.collectors[d].invalid by {
                        let i = clear.walked.index_of(d);
                        assert(tail[i] == d);
                        assert(self.chain[self.chain.len() - tail.len() + i] == d);
                        assert(self.registered(d));
                    }
                },
                Lock::Free => {},
            }
        }
    }

    /// A thread gets a collector that keeps nothing.
    pub proof fn lemma_enrol(self, thread: int, c: usize)
        requires
            self.inv(),
            0 <= thread < self.locals.len(),
            !self.occupied(c),
            c != 0,
            c % 4 == 0,
        ensures
            self.enrol(thread, c).inv(),
    {
        self.lemma_enlist(c);
        if self.locals.contains(c) {
            let i = self.locals.index_of(c);
            assert(self.locals[i] == c);
        }
        self.enlist(c).lemma_set_local(thread, c);
    }

    /// A collector outside the chain that keeps nothing comes into being.
    pub proof fn lemma_add_temporary(self, c: usize)
        requires
            self.inv(),
            !self.occupied(c),
            c != 0,
            c % 4 == 0,
        ensures
            self.add_temporary(c).inv(),
    {
        let post = self.add_temporary(c);
        assert(!self.registered(c));
        assert forall|a: usize| #[trigger] post.retirement(a) == self.retirement(a) by {}
        assert forall|a: usize| #[trigger] post.occupied(a) == (a == c || self.occupied(a)) by {}
        assert forall|a: usize| #[trigger] post.registered(a) == self.registered(a) by {}
        self.lemma_added(post, c);
        assert(post.chain_ok());
        assert(post.lock_ok()) by {
            match self.lock {
                Lock::Scan(scan) => {
                    assert(post.passed(scan.rest) == self.passed(scan.rest));
                    assert forall|d: usize| #[trigger]
                        post.passed(scan.rest).contains(d) implies post.caught_up(
                        d,
                        scan.known,
                    ) by {
                        assert(self.passed(scan.rest).contains(d));
                        assert(self.caught_up(d, scan.known));
                        assert(self.registered(d));
                    }
                },
                Lock::Clear(clear) => {
                    let tail = clear.walked + clear.rest;
                    assert forall|d: usize| #[trigger]
                        clear.walked.contains(d) implies post.collectors[d].invalid by {
                        let i = clear.walked.index_of(d);
                        assert(tail[i] == d);
                        assert(self.chain[self.chain.len() - tail.len() + i] == d);
                        assert(self.registered(d));
                    }
                },
                Lock::Free => {},
            }
        }
    }

    /// What a new collector, inside or outside the chain, leaves as it is.
    proof fn lemma_added(self, post: Self, c: usize)
        requires
            self.inv(),
            !self.occupied(c),
            c != 0,
            c % 4 == 0,
            post.epoch == self.epoch,
            post.tokens == self.tokens,
            post.instances == self.instances,
            post.collectors == self.collectors.insert(c, CollectorModel::new(self.epoch)),
            forall|a: usize| a != c ==> #[trigger] post.registered(a) == self.registered(a),
            forall|a: usize| #[trigger] post.retirement(a) == self.retirement(a),
            forall|a: usize| #[trigger] post.occupied(a) == (a == c || self.occupied(a)),
        ensures
            post.space_ok(),
            post.bags_ok(),
            post.held_ok(),
            post.instances_ok(),
            post.outside_ok(),
            post.epochs_ok(),
            post.stamps_ok(),
            post.readers_ok(),
    {
        assert forall|d: usize, x: usize|
            post.collectors.contains_key(d) && #[trigger] post.collectors[d].holds(
                x,
            ) implies post.keeps(d, x) && post.stamp_ok(d, x) by {
            if d != c {
                assert(self.collectors[d].holds(x));
                assert(self.keeps(d, x));
                assert(self.stamp_ok(d, x));
            }
        }
        assert(post.held_ok()) by {
            assert forall|a: usize| (#[trigger] post.retirement(a)) is Some implies {
                let retirement = post.retirement(a)->0;
                &&& post.collectors.contains_key(retirement.holder)
                &&& post.collectors[retirement.holder].holds(a)
                &&& retirement.serial < post.tokens
            } by {
                assert(self.retirement(a) is Some);
            }
        }
        assert(post.outside_ok()) by {
            assert forall|a: usize|
                (#[trigger] post.retirement(a)) is Some && !post.registered(
                    post.retirement(a)->0.holder,
                ) && post.collectors[post.retirement(a)->0.holder].retirement is None implies
                post.retirement(a)->0.readers =~= Set::empty() && post.instances.contains_key(a) by {
                assert(self.retirement(a) is Some);
            }
        }
        assert(post.stamps_ok()) by {
            assert forall|a: usize| (#[trigger] post.retirement(a)) is Some implies post.retirement(
                a,
            )->0.stamp <= post.epoch by {
                assert(self.retirement(a) is Some);
            }
        }
        assert(post.readers_ok()) by {
            assert forall|a: usize, s: nat|
                (#[trigger] post.retirement(a)) is Some && #[trigger] post.retirement(
                    a,
                )->0.readers.contains(s) implies s < post.tokens by {
                assert(self.retirement(a) is Some);
            }
            assert forall|a: usize, d: usize|
                (#[trigger] post.retirement(a)) is Some && #[trigger] post.pinned(d)
                    && post.retirement(a)->0.readers.contains(
                    post.collectors[d].session,
                ) implies post.collectors[d].seen <= post.retirement(a)->0.stamp by {
                assert(self.retirement(a) is Some);
                assert(self.pinned(d));
            }
        }
    }

    /// Instances come into being or get other strong references, and nothing else happens.
    pub proof fn lemma_instances(self, post: Self)
        requires
            self.sound(),
            post.epoch == self.epoch,
            post.tag == self.tag,
            post.chain == self.chain,
            post.lock == self.lock,
            post.collectors == self.collectors,
            post.locals == self.locals,
            self.tokens <= post.tokens,
            forall|a: usize| #[trigger] post.retirement(a) == self.retirement(a),
            forall|a: usize| #[trigger]
                self.instances.contains_key(a) ==> post.instances.contains_key(a),
            post.space_ok(),
        ensures
            post.sound(),
    {
        assert forall|a: usize| #[trigger] post.registered(a) == self.registered(a) by {}
        assert forall|a: usize| #[trigger] post.pinned(a) == self.pinned(a) by {}
        assert forall|c: usize, x: usize|
            post.collectors.contains_key(c) && #[trigger] post.collectors[c].holds(
                x,
            ) implies post.keeps(c, x) && post.stamp_ok(c, x) by {
            assert(self.keeps(c, x));
            assert(self.stamp_ok(c, x));
        }
        assert(post.held_ok()) by {
            assert forall|a: usize| (#[trigger] post.retirement(a)) is Some implies {
                let retirement = post.retirement(a)->0;
                &&& post.collectors.contains_key(retirement.holder)
                &&& post.collectors[retirement.holder].holds(a)
                &&& retirement.serial < post.tokens
            } by {
                assert(self.retirement(a) is Some);
            }
        }
        assert(post.outside_ok()) by {
            assert forall|a: usize|
                (#[trigger] post.retirement(a)) is Some && !post.registered(
                    post.retirement(a)->0.holder,
                ) && post.collectors[post.retirement(a)->0.holder].retirement is None implies
                post.retirement(a)->0.readers =~= Set::empty() && post.instances.contains_key(a) by {
                assert(self.retirement(a) is Some);
            }
        }
        assert(post.stamps_ok()) by {
            assert forall|a: usize| (#[trigger] post.retirement(a)) is Some implies post.retirement(
                a,
            )->0.stamp <= post.epoch by {
                assert(self.retirement(a) is Some);
            }
        }
        assert(post.readers_ok()) by {
            assert forall|a: usize, s: nat|
                (#[trigger] post.retirement(a)) is Some && #[trigger] post.retirement(
                    a,
                )->0.readers.contains(s) implies s < post.tokens by {
                assert(self.retirement(a) is Some);
            }
            assert forall|a: usize, d: usize|
                (#[trigger] post.retirement(a)) is Some && #[trigger] post.pinned(d)
                    && post.retirement(a)->0.readers.contains(
                    post.collectors[d].session,
                ) implies post.collectors[d].seen <= post.retirement(a)->0.stamp by {
                assert(self.retirement(a) is Some);
                assert(self.pinned(d));
            }
        }
        assert(post.lock_ok()) by {
            match self.lock {
                Lock::Scan(scan) => {
                    assert(post.passed(scan.rest) == self.passed(scan.rest));
                    assert forall|d: usize| #[trigger]
                        post.passed(scan.rest).contains(d) implies post.caught_up(
                        d,
                        scan.known,
                    ) by {
                        assert(self.passed(scan.rest).contains(d));
                        assert(self.caught_up(d, scan.known));
                    }
                },
                _ => {},
            }
        }
    }

    /// See [`Model::create`].
    pub proof fn lemma_create(self, x: usize, value: T, shared: bool)
        requires
            self.inv(),
            !self.occupied(x),
            x != 0,
            x % 4 == 0,
        ensures
            self.create(x, value, shared).inv(),
    {
        let post = self.create(x, value, shared);
        assert forall|a: usize| #[trigger] post.retirement(a) == self.retirement(a) by {}
        assert forall|a: usize| #[trigger] post.occupied(a) == (a == x || self.occupied(a)) by {}
        assert(post.instances_ok()) by {
            assert forall|y: usize| #[trigger] post.instances.contains_key(y) && y != x implies
                self.instances.contains_key(y) && post.instances[y] == self.instances[y] by {}
        }
        self.lemma_instances(post);
    }

    /// See [`Model::share`].
    pub proof fn lemma_share(self, x: usize)
        requires
            self.inv(),
            self.instances.contains_key(x),
            self.instances[x].retirement is None,
            self.instances[x].shared,
            self.instances[x].refs.len() > 0,
            2 * self.instances[x].refs.len() + 1 <= usize::MAX,
        ensures
            self.share(x).inv(),
            self.share(x).instances[x].refs.len() == self.instances[x].refs.len() + 1,
    {
        let post = self.share(x);
        assert forall|a: usize| #[trigger] post.retirement(a) == self.retirement(a) by {}
        assert forall|a: usize| #[trigger] post.occupied(a) == self.occupied(a) by {}
        assert(!self.instances[x].refs.contains(self.tokens));
        self.lemma_instances(post);
    }

    /// See [`Model::unshare`].
    pub proof fn lemma_unshare(self, x: usize, token: nat)
        requires
            self.inv(),
            self.instances.contains_key(x),
            self.instances[x].retirement is None,
            self.instances[x].refs.contains(token),
        ensures
            self.unshare(x, token).inv(),
            self.unshare(x, token).instances[x].refs.len() == self.instances[x].refs.len() - 1,
    {
        let post = self.unshare(x, token);
        assert forall|a: usize| #[trigger] post.retirement(a) == self.retirement(a) by {}
        assert forall|a: usize| #[trigger] post.occupied(a) == self.occupied(a) by {}
        self.lemma_instances(post);
    }

    /// Something that nobody has retired can be retired into a collector.
    pub open spec fn collectable(self, c: usize, x: usize) -> bool {
        &&& self.collectors.contains_key(c)
        &&& self.collectors[c].retirement is None
        &&& !self.collectors[c].invalid
        &&& self.collectors[c].pending is None
        &&& self.occupied(x)
        &&& self.retirement(x) is None
        &&& x != c
    }

    /// What a collector keeps after one more instance was retired into it.
    proof fn lemma_collected(self, c: usize, x: usize)
        requires
            self.sound(),
            self.collectable(c, x),
        ensures
            !self.collectors[c].holds(x),
            self.collectors[c].collected(x).distinct(),
            forall|y: usize| #[trigger]
                self.collectors[c].collected(x).holds(y) == (y == x || self.collectors[c].holds(y)),
            forall|y: usize| #[trigger]
                self.collectors[c].collected(x).current.contains(y) == (y == x
                    || self.collectors[c].current.contains(y)),
    {
        let before = self.collectors[c];
        let after = before.collected(x);
        assert(!before.holds(x)) by {
            if before.holds(x) {
                assert(self.keeps(c, x));
            }
        }
        assert(after.current[0] == x);
        assert forall|y: usize| #[trigger] after.current.contains(y) == (y == x
            || before.current.contains(y)) by {
            if before.current.contains(y) {
                let i = before.current.index_of(y);
                assert(after.current[i + 1] == y);
            }
        }
    }

    /// What retiring something into a collector leaves as it is.
    proof fn lemma_retired(self, post: Self, c: usize, x: usize)
        requires
            self.sound(),
            self.collectable(c, x),
            self.registered(c) || self.instances.contains_key(x),
            post.epoch == self.epoch,
            post.tokens == self.tokens + 1,
            forall|a: usize| a != x ==> #[trigger] post.registered(a) == self.registered(a),
            forall|a: usize| #[trigger] post.occupied(a) == self.occupied(a),
            forall|a: usize|
                #![trigger post.collectors.contains_key(a)]
                post.collectors.contains_key(a) == self.collectors.contains_key(a),
            forall|a: usize|
                #![trigger post.instances.contains_key(a)]
                post.instances.contains_key(a) == self.instances.contains_key(a),
            forall|a: usize|
                #![trigger post.collectors[a]]
                a != c && a != x ==> post.collectors[a] == self.collectors[a],
            post.collectors[c] == self.collectors[c].collected(x),
            self.collectors.contains_key(x) ==> {
                &&& self.collectors[x].invalid
                &&& post.collectors[x] == (CollectorModel {
                    retirement: Some(self.retirement_now(c)),
                    ..self.collectors[x]
                })
            },
            post.retirement(x) == Some(self.retirement_now(c)),
            forall|a: usize| a != x ==> #[trigger] post.retirement(a) == self.retirement(a),
        ensures
            post.space_ok(),
            post.bags_ok(),
            post.held_ok(),
            post.outside_ok(),
            post.epochs_ok(),
            post.stamps_ok(),
            post.readers_ok(),
    {
        self.lemma_collected(c, x);
        assert forall|a: usize| #[trigger] post.pinned(a) implies self.pinned(a) by {}
        assert forall|s: nat| #[trigger] self.sessions().contains(s) implies s < self.tokens by {
            let d = choose|d: usize| #[trigger] self.pinned(d) && self.collectors[d].session == s;
            assert(self.pinned(d));
        }
        assert forall|d: usize, y: usize|
            post.collectors.contains_key(d) && #[trigger] post.collectors[d].holds(
                y,
            ) implies post.keeps(d, y) && post.stamp_ok(d, y) by {
            if d == c && y == x {
            } else {
                assert(self.collectors[d].holds(y));
                assert(self.keeps(d, y));
                assert(self.stamp_ok(d, y));
                assert(self.retirement(y)->0.stamp <= self.epoch);
            }
        }
        assert(post.bags_ok());
        assert(post.held_ok()) by {
            assert forall|a: usize| (#[trigger] post.retirement(a)) is Some implies {
                let retirement = post.retirement(a)->0;
                &&& post.collectors.contains_key(retirement.holder)
                &&& post.collectors[retirement.holder].holds(a)
                &&& retirement.serial < post.tokens
            } by {
                if a != x {
                    assert(self.retirement(a) is Some);
                    assert(self.collectors[self.retirement(a)->0.holder].holds(a));
                }
            }
        }
        assert(post.outside_ok()) by {
            assert forall|a: usize|
                (#[trigger] post.retirement(a)) is Some && !post.registered(
                    post.retirement(a)->0.holder,
                ) && post.collectors[post.retirement(a)->0.holder].retirement is None implies
                post.retirement(a)->0.readers =~= Set::empty() && post.instances.contains_key(a) by {
                if a != x {
                    assert(self.retirement(a) is Some);
                }
            }
        }
        assert(post.epochs_ok());
        assert(post.stamps_ok()) by {
            assert forall|a: usize| (#[trigger] post.retirement(a)) is Some implies post.retirement(
                a,
            )->0.stamp <= post.epoch by {
                if a != x {
                    assert(self.retirement(a) is Some);
                }
            }
        }
        assert(post.readers_ok()) by {
            assert forall|a: usize, s: nat|
                (#[trigger] post.retirement(a)) is Some && #[trigger] post.retirement(
                    a,
                )->0.readers.contains(s) implies s < post.tokens by {
                if a != x {
                    assert(self.retirement(a) is Some);
                }
            }
            assert forall|a: usize, d: usize|
                (#[trigger] post.retirement(a)) is Some && #[trigger] post.pinned(d)
                    && post.retirement(a)->0.readers.contains(
                    post.collectors[d].session,
                ) implies post.collectors[d].seen <= post.retirement(a)->0.stamp by {
                assert(self.pinned(d));
                if a != x {
                    assert(self.retirement(a) is Some);
                }
            }
        }
    }

    /// See [`Model::retire`].
    pub proof fn lemma_retire(self, c: usize, x: usize)
        requires
            self.inv(),
            self.collectable(c, x),
            self.instances.contains_key(x),
            self.instances[x].refs.len() == 0,
        ensures
            self.retire(c, x).inv(),
    {
        let post = self.retire(c, x);
        assert(!self.collectors.contains_key(x)) by {
            assert(self.occupied(x));
        }
        assert forall|a: usize| a != x implies #[trigger] post.retirement(a) == self.retirement(
            a,
        ) by {}
        self.lemma_retired(post, c, x);
        assert forall|a: usize| #[trigger] post.registered(a) == self.registered(a) by {}
        assert(post.chain_ok());
        assert(post.lock_ok()) by {
            match self.lock {
                Lock::Scan(scan) => {
                    assert(post.passed(scan.rest) == self.passed(scan.rest));
                    assert forall|d: usize| #[trigger]
                        post.passed(scan.rest).contains(d) implies post.caught_up(
                        d,
                        scan.known,
                    ) by {
                        assert(self.passed(scan.rest).contains(d));
                        assert(self.caught_up(d, scan.known));
                    }
                },
                Lock::Clear(clear) => {
                    assert forall|d: usize| #[trigger]
                        clear.walked.contains(d) implies post.collectors[d].invalid by {
                        assert(self.collectors[d].invalid);
                    }
                },
                Lock::Free => {},
            }
        }
        assert(post.locals_ok());
    }

    /// See [`Model::scan_unlink`].
    pub proof fn lemma_scan_unlink(self)
        requires
            self.inv(),
            self.lock matches Lock::Scan(scan) && scan.rest.len() > 0
                && self.collectors[scan.rest[0]].invalid,
        ensures
            self.scan_unlink().inv(),
    {
        let scan = self.lock->Scan_0;
        let c = scan.scanner;
        let x = scan.rest[0];
        let post = self.scan_unlink();
        self.lemma_passed(scan.rest);
        assert(x != c);
        let n = self.passed(scan.rest).len();
        assert forall|a: usize| #[trigger] post.registered(a) == (a != x && self.registered(a)) by {
            if post.registered(a) {
                let i = post.chain.index_of(a);
                if i < n {
                    assert(self.chain[i] == a);
                } else {
                    assert(self.chain[i + 1] == a);
                }
            }
            if self.registered(a) && a != x {
                let i = self.chain.index_of(a);
                if i < n {
                    assert(post.chain[i] == a);
                } else {
                    assert(post.chain[i - 1] == a);
                }
            }
        }
        assert(self.occupied(x));
        assert(!self.instances.contains_key(x));
        assert forall|a: usize| a != x implies #[trigger] post.retirement(a) == self.retirement(
            a,
        ) by {}
        self.lemma_retired(post, c, x);
        assert(post.chain.no_duplicates());
        assert(post.chain_ok());
        assert(post.instances_ok());
        assert(post.lock_ok()) by {
            assert(post.passed(scan.rest.skip(1)) =~= self.passed(scan.rest));
            assert(post.chain.subrange(
                post.chain.len() - scan.rest.skip(1).len(),
                post.chain.len() as int,
            ) =~= scan.rest.skip(1));
            assert forall|d: usize| #[trigger]
                post.passed(scan.rest.skip(1)).contains(d) implies post.caught_up(
                d,
                scan.known,
            ) by {
                assert(self.passed(scan.rest).contains(d));
                assert(self.caught_up(d, scan.known));
            }
        }
        assert(post.locals_ok());
    }

    /// See [`Model::put`].
    pub proof fn lemma_put(self, x: usize, body: Payload<T, F>)
        requires
            self.inv(),
            !self.occupied(x),
            x != 0,
            x % 4 == 0,
        ensures
            self.put(x, body).inv(),
    {
        let post = self.put(x, body);
        assert forall|a: usize| #[trigger] post.retirement(a) == self.retirement(a) by {}
        assert forall|a: usize| #[trigger] post.occupied(a) == (a == x || self.occupied(a)) by {}
        assert(post.instances_ok()) by {
            assert forall|y: usize| #[trigger] post.instances.contains_key(y) && y != x implies
                self.instances.contains_key(y) && post.instances[y] == self.instances[y] by {}
        }
        self.lemma_instances(post);
    }

    /// See [`Model::new`].
    pub proof fn lemma_new()
        ensures
            Model::<T, F>::new().inv(),
    {
    }

    /// The word at the root consists of the head of the chain and a tag.
    pub proof fn lemma_head(self, word: usize)
        requires
            self.space_ok(),
            self.chain_ok(),
            word == model::first_of(self.chain) + self.tag@,
        ensures
            word % 4 == self.tag@,
            word - self.tag@ == model::first_of(self.chain),
            self.chain.len() > 0 ==> model::first_of(self.chain) != 0,
    {
        if self.chain.len() > 0 {
            assert(self.chain.contains(self.chain[0]));
            assert(self.registered(self.chain[0]));
            assert(self.occupied(self.chain[0]));
        }
    }
}

} // verus!

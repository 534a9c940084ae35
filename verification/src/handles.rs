//! What threads hold stays theirs until they give it up.

use crate::model::{Bag, CollectorModel, Lock, Model};
use vstd::prelude::*;

verus! {

impl<T, F> Model<T, F> {
    /// The thread of the collector has the guard.
    pub open spec fn guarded(self, c: usize, guard: nat) -> bool {
        &&& self.registered(c)
        &&& !self.collectors[c].invalid
        &&& self.collectors[c].guards.contains(guard)
    }

    /// There is the strong reference to the instance.
    pub open spec fn owned(self, x: usize, token: nat) -> bool {
        self.instances.contains_key(x) && self.instances[x].refs.contains(token)
    }

    /// The thread of the collector is not in the middle of anything.
    pub open spec fn calm(self, c: usize) -> bool {
        &&& self.registered(c)
        &&& !self.collectors[c].invalid
        &&& self.collectors[c].settled()
        &&& self.collectors[c].garbage.len() == 0
    }

    /// The thread of the collector is not in the middle of anything but reclaiming.
    pub open spec fn poised(self, c: usize) -> bool {
        &&& self.registered(c)
        &&& !self.collectors[c].invalid
        &&& self.collectors[c].settled()
    }

    /// The thread of the collector does not reclaim anything, or it has the guard besides another
    /// one.
    pub open spec fn usable(self, c: usize, guard: nat) -> bool {
        self.collectors[c].garbage.len() == 0 || guard != self.collectors[c].session
    }

    /// A step of the thread of `c` takes nothing away from anybody but what is in `gone`.
    pub open spec fn respects(self, post: Self, c: usize, gone: Set<nat>) -> bool {
        &&& self.tokens <= post.tokens
        &&& forall|d: usize, guard: nat| #[trigger]
            self.guarded(d, guard) && !gone.contains(guard) ==> {
                &&& post.guarded(d, guard)
                &&& post.collectors[d].session == self.collectors[d].session
            }
        &&& forall|x: usize, token: nat| #[trigger]
            self.owned(x, token) && !gone.contains(token) ==> {
                &&& post.owned(x, token)
                &&& post.instances[x].body == self.instances[x].body
                &&& post.instances[x].shared == self.instances[x].shared
            }
        &&& forall|d: usize| d != c && #[trigger] self.calm(d) ==> post.calm(d)
        &&& forall|d: usize| d != c && #[trigger] self.poised(d) ==> post.poised(d)
    }

    /// A thread that was not in the middle of anything is not so afterwards.
    pub open spec fn settles(self, post: Self) -> bool {
        forall|thread: int| #[trigger] self.at_rest(thread) ==> post.at_rest(thread)
    }

    /// The guards of the thread of a collector, none if there is no collector.
    pub open spec fn guards_of(self, c: usize) -> Set<nat> {
        if c == 0 {
            Set::empty()
        } else {
            self.collectors[c].guards
        }
    }

    /// Instances that have not been retired are the same as before.
    pub open spec fn leaves(self, post: Self) -> bool {
        forall|x: usize| #[trigger]
            self.instances.contains_key(x) && self.instances[x].retirement is None ==> {
                &&& post.instances.contains_key(x)
                &&& post.instances[x] == self.instances[x]
            }
    }

    /// Guards and strong references stay valid unless they are in `gone`, and whatever a thread
    /// reads stays in place.
    pub open spec fn retains(self, post: Self, gone: Set<nat>) -> bool {
        &&& self.tokens <= post.tokens
        &&& forall|d: usize, guard: nat| #[trigger]
            self.guarded(d, guard) && !gone.contains(guard) && self.usable(d, guard) ==> {
                &&& post.guarded(d, guard)
                &&& post.collectors[d].session == self.collectors[d].session
                &&& post.usable(d, guard)
            }
        &&& forall|x: usize, token: nat| #[trigger]
            self.owned(x, token) && !gone.contains(token) ==> {
                &&& post.owned(x, token)
                &&& post.instances[x].body == self.instances[x].body
                &&& post.instances[x].shared == self.instances[x].shared
            }
        &&& self.spares(post)
    }

    /// Guards and strong references stay valid unless they are in `gone`, whatever a thread reads
    /// stays in place, and a thread that was not in the middle of anything is not so afterwards.
    pub open spec fn honours(self, post: Self, gone: Set<nat>) -> bool {
        &&& self.retains(post, gone)
        &&& self.settles(post)
    }

    /// What two steps keep, one after the other.
    pub proof fn lemma_retains_transitive(self, mid: Self, post: Self, gone: Set<nat>)
        requires
            self.inv(),
            self.retains(mid, gone),
            mid.retains(post, gone),
        ensures
            self.retains(post, gone),
    {
        self.lemma_spares_transitive(mid, post);
    }

    /// What makes a step keep all that threads hold.
    pub proof fn lemma_honours(self, post: Self, c: usize, gone: Set<nat>)
        requires
            self.inv(),
            self.respects(post, c, gone),
            self.calm(c) ==> post.calm(c) || (forall|guard: nat|
                !#[trigger] self.guarded(c, guard) || gone.contains(guard)),
            self.settles(post),
            self.spares(post),
        ensures
            self.honours(post, gone),
    {
        assert forall|d: usize, guard: nat| #[trigger]
            self.guarded(d, guard) && !gone.contains(guard) && self.usable(d, guard) implies {
            &&& post.guarded(d, guard)
            &&& post.collectors[d].session == self.collectors[d].session
            &&& post.usable(d, guard)
        } by {
            assert(self.collectors[d].local_ok());
            vstd::set_lib::lemma_set_empty_equivalency_len(self.collectors[d].guards);
            if self.collectors[d].garbage.len() == 0 {
                assert(self.calm(d));
            }
        }
    }

    /// What two steps keep, one after the other.
    pub proof fn lemma_honours_transitive(self, mid: Self, post: Self, gone: Set<nat>)
        requires
            self.inv(),
            self.honours(mid, gone),
            mid.honours(post, gone),
        ensures
            self.honours(post, gone),
    {
        self.lemma_spares_transitive(mid, post);
    }

    /// What is given up had not been there at the outset.
    pub proof fn lemma_honours_fresh(self, mid: Self, post: Self, token: nat, gone: Set<nat>)
        requires
            self.inv(),
            self.honours(mid, gone),
            mid.honours(post, set![token]),
            self.tokens <= token,
        ensures
            self.honours(post, gone),
    {
        assert forall|d: usize, guard: nat| #[trigger] self.guarded(d, guard) implies guard
            != token by {
            assert(self.collectors.contains_key(d));
        }
        assert forall|x: usize, other: nat| #[trigger] self.owned(x, other) implies other
            != token by {}
        self.lemma_spares_transitive(mid, post);
    }

    /// The chain, the collectors of the threads and the part of a collector that concerns the
    /// guards of its thread are the same as before.
    pub open spec fn same_reader(self, post: Self, c: usize) -> bool {
        let collector = post.collectors[c];
        &&& post.epoch == self.epoch
        &&& post.chain == self.chain
        &&& post.lock == self.lock
        &&& post.locals == self.locals
        &&& post.dropped == self.dropped
        &&& post.collectors.contains_key(c)
        &&& collector == CollectorModel {
            previous: collector.previous,
            current: collector.current,
            next: collector.next,
            garbage: collector.garbage,
            has_garbage: collector.has_garbage,
            next_epoch_update: collector.next_epoch_update,
            ..self.collectors[c]
        }
    }

    /// Guards and strong references stay valid unless they are in `gone`.
    pub open spec fn keeps_handles(self, post: Self, gone: Set<nat>) -> bool {
        &&& self.tokens <= post.tokens
        &&& forall|d: usize, guard: nat| #[trigger]
            self.guarded(d, guard) && !gone.contains(guard) && self.usable(d, guard) ==> {
                &&& post.guarded(d, guard)
                &&& post.collectors[d].session == self.collectors[d].session
                &&& post.usable(d, guard)
            }
        &&& forall|x: usize, token: nat| #[trigger]
            self.owned(x, token) && !gone.contains(token) ==> {
                &&& post.owned(x, token)
                &&& post.instances[x].body == self.instances[x].body
                &&& post.instances[x].shared == self.instances[x].shared
            }
    }

    /// What a thread without guards keeps by a step that may give up what is in `more`.
    pub proof fn lemma_keeps_handles(
        self,
        mid: Self,
        post: Self,
        c: usize,
        gone: Set<nat>,
        more: Set<nat>,
    )
        requires
            self.inv(),
            mid.inv(),
            self.keeps_handles(mid, gone),
            mid.respects(post, c, more),
            !mid.registered(c),
            self.inherits(gone, more),
        ensures
            self.keeps_handles(post, gone),
    {
        assert forall|d: usize, guard: nat| #[trigger]
            self.guarded(d, guard) && !gone.contains(guard) && self.usable(d, guard) implies {
            &&& post.guarded(d, guard)
            &&& post.collectors[d].session == self.collectors[d].session
            &&& post.usable(d, guard)
        } by {
            assert(self.collectors.contains_key(d));
            assert(!more.contains(guard));
            assert(mid.guarded(d, guard));
            assert(mid.collectors[d].local_ok());
            vstd::set_lib::lemma_set_empty_equivalency_len(mid.collectors[d].guards);
            if mid.collectors[d].garbage.len() == 0 {
                assert(mid.calm(d));
            }
        }
        assert forall|x: usize, token: nat| #[trigger]
            self.owned(x, token) && !gone.contains(token) implies !more.contains(token) by {}
    }

    /// What belongs to `heirs` belonged to `estate`, or had not been there at the outset.
    pub open spec fn inherits(self, estate: Set<nat>, heirs: Set<nat>) -> bool {
        forall|token: nat| #[trigger]
            heirs.contains(token) ==> estate.contains(token) || self.tokens <= token
    }

    /// What is given up had not been there at the outset, unless it is in `gone`.
    pub proof fn lemma_respects_inherited(
        self,
        mid: Self,
        post: Self,
        c: usize,
        gone: Set<nat>,
        more: Set<nat>,
    )
        requires
            self.inv(),
            self.respects(mid, c, gone),
            mid.respects(post, c, more),
            self.inherits(gone, more),
        ensures
            self.respects(post, c, gone),
    {
        assert forall|d: usize, guard: nat| #[trigger]
            self.guarded(d, guard) && !gone.contains(guard) implies !more.contains(guard) by {
            assert(self.collectors.contains_key(d));
        }
        assert forall|x: usize, token: nat| #[trigger]
            self.owned(x, token) && !gone.contains(token) implies !more.contains(token) by {}
    }

    /// What two steps of a thread keep, one after the other.
    pub proof fn lemma_respects_transitive(self, mid: Self, post: Self, c: usize, gone: Set<nat>)
        requires
            self.respects(mid, c, gone),
            mid.respects(post, c, gone),
        ensures
            self.respects(post, c, gone),
    {
    }

    /// A step that leaves the collectors of all threads in place.
    pub proof fn lemma_settles(self, post: Self, c: usize, gone: Set<nat>)
        requires
            self.locals_ok(),
            self.respects(post, c, gone),
            post.poised(c) || !self.poised(c),
            forall|thread: int|
                0 <= thread < self.locals.len() ==> {
                    &&& thread < post.locals.len()
                    &&& #[trigger] post.locals[thread] == self.locals[thread]
                        || post.locals[thread] == 0
                },
        ensures
            self.settles(post),
    {
        assert forall|thread: int| #[trigger] self.at_rest(thread) implies post.at_rest(thread) by {
            assert(post.locals[thread] == self.locals[thread] || post.locals[thread] == 0);
            if self.locals[thread] != 0 {
                assert(self.poised(self.locals[thread]));
            }
        }
    }

    /// A collector is replaced by another, and nothing else happens.
    pub proof fn lemma_respects_with(
        self,
        c: usize,
        collector: CollectorModel,
        tokens: nat,
        gone: Set<nat>,
    )
        requires
            self.tokens <= tokens,
            forall|guard: nat| #[trigger]
                self.guarded(c, guard) && !gone.contains(guard) ==> {
                    &&& !collector.invalid
                    &&& collector.guards.contains(guard)
                    &&& collector.session == self.collectors[c].session
                },
        ensures
            self.respects(Model { tokens, ..self.with(c, collector) }, c, gone),
    {
        let post = Model { tokens, ..self.with(c, collector) };
        assert forall|d: usize| #[trigger] self.registered(d) == post.registered(d) by {}
        assert forall|x: usize, token: nat| #[trigger] self.owned(x, token) implies post.owned(
            x,
            token,
        ) by {}
        assert forall|d: usize| d != c && #[trigger] self.calm(d) implies post.calm(d) by {}
        assert forall|d: usize| d != c && #[trigger] self.poised(d) implies post.poised(d) by {}
    }

    /// The chain and its lock, the collectors of the threads and what is to be destroyed are
    /// nothing that a thread holds.
    pub proof fn lemma_respects_words(self, post: Self, c: usize)
        requires
            post.chain == self.chain,
            post.collectors == self.collectors,
            post.instances == self.instances,
            post.tokens == self.tokens,
        ensures
            self.respects(post, c, Set::empty()),
    {
        assert forall|d: usize| #[trigger] self.registered(d) == post.registered(d) by {}
        assert forall|d: usize, guard: nat| #[trigger] self.guarded(
            d,
            guard,
        ) implies post.guarded(d, guard) by {}
        assert forall|x: usize, token: nat| #[trigger] self.owned(x, token) implies post.owned(
            x,
            token,
        ) by {}
        assert forall|d: usize| #[trigger] self.calm(d) implies post.calm(d) by {}
        assert forall|d: usize| #[trigger] self.poised(d) implies post.poised(d) by {}
    }

    /// Nobody holds anything of what is reclaimed.
    pub proof fn lemma_respects_removal(self, post: Self, c: usize, bound: nat)
        requires
            self.steady(),
            self.only_removes(post, c, bound),
            post.collectors.contains_key(c),
            post.collectors[c].guards == self.collectors[c].guards,
            post.collectors[c].session == self.collectors[c].session,
            post.collectors[c].invalid == self.collectors[c].invalid,
        ensures
            self.respects(post, c, Set::empty()),
    {
        assert forall|d: usize| #[trigger] self.registered(d) implies post.registered(d)
            && post.collectors.contains_key(d) && (d != c ==> post.collectors[d]
            == self.collectors[d]) by {
            assert(self.collectors.contains_key(d));
        }
        assert forall|d: usize, guard: nat| #[trigger] self.guarded(d, guard) implies {
            &&& post.guarded(d, guard)
            &&& post.collectors[d].session == self.collectors[d].session
        } by {
            assert(self.registered(d));
        }
        assert forall|x: usize, token: nat| #[trigger] self.owned(x, token) implies {
            &&& post.owned(x, token)
            &&& post.instances[x].body == self.instances[x].body
            &&& post.instances[x].shared == self.instances[x].shared
        } by {
            if !post.instances.contains_key(x) {
                vstd::set_lib::lemma_set_empty_equivalency_len(self.instances[x].refs);
            }
        }
        assert forall|d: usize| d != c && #[trigger] self.calm(d) implies post.calm(d) by {
            assert(self.registered(d));
        }
        assert forall|d: usize| d != c && #[trigger] self.poised(d) implies post.poised(d) by {
            assert(self.registered(d));
        }
    }

    /// Instances come into being or get other strong references.
    pub proof fn lemma_respects_instances(self, post: Self, c: usize, gone: Set<nat>)
        requires
            post.chain == self.chain,
            post.collectors == self.collectors,
            self.tokens <= post.tokens,
            forall|x: usize, token: nat| #[trigger]
                self.owned(x, token) && !gone.contains(token) ==> {
                    &&& post.owned(x, token)
                    &&& post.instances[x].body == self.instances[x].body
                    &&& post.instances[x].shared == self.instances[x].shared
                },
        ensures
            self.respects(post, c, gone),
    {
        assert forall|d: usize| #[trigger] self.registered(d) == post.registered(d) by {}
        assert forall|d: usize, guard: nat| #[trigger] self.guarded(
            d,
            guard,
        ) implies post.guarded(d, guard) by {}
        assert forall|d: usize| #[trigger] self.calm(d) implies post.calm(d) by {}
        assert forall|d: usize| #[trigger] self.poised(d) implies post.poised(d) by {}
    }

    /// An instance that has no strong reference is retired.
    pub proof fn lemma_respects_retire(self, c: usize, x: usize)
        requires
            self.inv(),
            self.collectable(c, x),
            self.instances.contains_key(x),
            self.instances[x].refs.len() == 0,
        ensures
            self.respects(self.retire(c, x), c, Set::empty()),
            self.calm(c) ==> self.retire(c, x).calm(c),
            self.poised(c) ==> self.retire(c, x).poised(c),
    {
        let post = self.retire(c, x);
        vstd::set_lib::lemma_set_empty_equivalency_len(self.instances[x].refs);
        assert forall|d: usize| #[trigger] self.registered(d) == post.registered(d) by {}
        assert forall|d: usize, guard: nat| #[trigger] self.guarded(
            d,
            guard,
        ) implies post.guarded(d, guard) && post.collectors[d].session
            == self.collectors[d].session by {}
        assert forall|y: usize, token: nat| #[trigger] self.owned(y, token) implies {
            &&& post.owned(y, token)
            &&& post.instances[y].body == self.instances[y].body
            &&& post.instances[y].shared == self.instances[y].shared
        } by {
            assert(y != x);
        }
        assert forall|d: usize| d != c && #[trigger] self.calm(d) implies post.calm(d) by {}
        assert forall|d: usize| d != c && #[trigger] self.poised(d) implies post.poised(d) by {}
    }

    /// A thread gets a collector.
    pub proof fn lemma_respects_enrol(self, thread: int, c: usize)
        requires
            self.inv(),
            !self.occupied(c),
        ensures
            self.respects(self.enrol(thread, c), c, Set::empty()),
            self.enrol(thread, c).calm(c),
            self.enrol(thread, c).poised(c),
            !self.poised(c),
    {
        let post = self.enrol(thread, c);
        assert forall|d: usize| #[trigger] self.registered(d) implies d != c && post.registered(
            d,
        ) by {
            let i = self.chain.index_of(d);
            assert(post.chain[i + 1] == d);
            assert(self.collectors.contains_key(d));
        }
        assert(post.chain[0] == c);
        assert forall|d: usize, guard: nat| #[trigger] self.guarded(
            d,
            guard,
        ) implies post.guarded(d, guard) && post.collectors[d].session
            == self.collectors[d].session by {
            assert(self.registered(d));
        }
        assert forall|x: usize, token: nat| #[trigger] self.owned(x, token) implies post.owned(
            x,
            token,
        ) by {}
        assert forall|d: usize| #[trigger] self.calm(d) implies post.calm(d) by {
            assert(self.registered(d));
        }
        assert forall|d: usize| #[trigger] self.poised(d) implies post.poised(d) by {
            assert(self.registered(d));
        }
        assert(post.registered(c));
    }

    /// A thread without a guard has none to lose.
    proof fn lemma_unguarded(self, c: usize)
        requires
            self.inv(),
            self.collectors.contains_key(c),
            self.collectors[c].num_readers == 0 || self.collectors[c].pending is Some,
        ensures
            forall|guard: nat| !#[trigger] self.guarded(c, guard),
    {
        if !self.collectors[c].invalid {
            assert(self.collectors[c].local_ok());
            vstd::set_lib::lemma_set_empty_equivalency_len(self.collectors[c].guards);
        }
    }

    /// A thread gets a guard.
    pub proof fn lemma_respects_new_guard(self, c: usize, collect_garbage: bool)
        requires
            self.inv(),
            self.poised(c),
            self.collectors[c].num_readers < u32::MAX,
        ensures
            self.new_guard(c, collect_garbage).inv(),
            self.respects(self.new_guard(c, collect_garbage), c, Set::empty()),
            self.new_guard(c, collect_garbage).poised(c),
            self.calm(c) ==> self.new_guard(c, collect_garbage).calm(c),
            self.new_guard(c, collect_garbage).usable(c, self.tokens),
            self.new_guard(c, collect_garbage).guarded(c, self.tokens),
            self.new_guard(c, collect_garbage).locals == self.locals,
            self.new_guard(c, collect_garbage).tokens == self.tokens + 1,
            self.new_guard(c, collect_garbage).epoch == self.epoch,
            self.leaves(self.new_guard(c, collect_garbage)),
            self.new_guard(c, collect_garbage).collectors[c].guards
                == self.collectors[c].guards.insert(self.tokens),
            self.new_guard(c, collect_garbage).collectors[c].num_readers
                == self.collectors[c].num_readers + 1,
            self.new_guard(c, collect_garbage).collectors[c].session == if self.collectors[c].num_readers
                > 0 {
                self.collectors[c].session
            } else {
                self.tokens
            },
    {
        if self.collectors[c].num_readers > 0 {
            self.lemma_nest(c);
            let post = self.nest(c);
            self.lemma_respects_with(c, post.collectors[c], post.tokens, Set::empty());
            assert(post.registered(c));
        } else {
            let entered = self.enter(c);
            self.lemma_enter(c);
            self.lemma_unguarded(c);
            self.lemma_respects_with(c, entered.collectors[c], self.tokens, Set::empty());
            assert(entered.registered(c));
            let announced = entered.announce(c);
            entered.lemma_announce(c);
            entered.lemma_unguarded(c);
            entered.lemma_respects_with(c, announced.collectors[c], announced.tokens, Set::empty());
            assert(announced.registered(c));
            self.lemma_respects_transitive(entered, announced, c, Set::empty());
            if collect_garbage && announced.collectors[c].announcement
                != self.collectors[c].announcement {
                announced.lemma_respects_epoch_updated(c);
                let post = announced.epoch_updated(c);
                self.lemma_respects_transitive(announced, post, c, Set::empty());
            }
        }
    }

    /// A thread acknowledges an epoch change.
    pub proof fn lemma_respects_epoch_updated(self, c: usize)
        requires
            self.inv(),
            self.registered(c),
            self.collectors[c].num_readers > 0,
            self.collectors[c].settled(),
            !self.collectors[c].invalid,
            self.due(c),
        ensures
            self.epoch_updated(c).inv(),
            self.respects(self.epoch_updated(c), c, Set::empty()),
            self.epoch_updated(c).calm(c),
            self.epoch_updated(c).poised(c),
            self.epoch_updated(c).locals == self.locals,
            self.epoch_updated(c).tokens == self.tokens,
            self.epoch_updated(c).epoch == self.epoch,
            self.leaves(self.epoch_updated(c)),
            self.epoch_updated(c).collectors[c] == (CollectorModel {
                garbage: Seq::empty(),
                ..self.collectors[c].rotated()
            }),
    {
        let rotated = self.rotate(c);
        self.lemma_rotate(c);
        self.lemma_respects_with(c, rotated.collectors[c], self.tokens, Set::empty());
        assert(rotated.registered(c));
        let post = rotated.drop_garbage(c);
        rotated.lemma_drop_bag(c, Bag::Garbage, rotated.rank(c));
        rotated.lemma_respects_removal(post, c, rotated.rank(c));
        self.lemma_respects_transitive(rotated, post, c, Set::empty());
        assert(post.registered(c));
    }

    /// A scan takes nothing away from anybody.
    proof fn lemma_respects_scan_run(self, c: usize)
        requires
            self.inv(),
            self.lock matches Lock::Scan(scan) && scan.scanner == c,
        ensures
            self.respects(self.scan_run(), c, Set::empty()),
            self.scan_run().locals == self.locals,
            self.scan_run().instances == self.instances,
            self.scan_run().dropped == self.dropped,
            self.scan_run().collectors[c].garbage == self.collectors[c].garbage,
            self.scan_run().collectors[c].guards == self.collectors[c].guards,
        decreases self.lock->Scan_0.rest.len(),
    {
        let scan = self.lock->Scan_0;
        if scan.rest.len() == 0 {
            self.lemma_respects_words(self.scan_run(), c);
        } else if self.ready(scan.scanner, scan.rest[0]) {
            self.lemma_ready_rest();
            let next = self.scan_next();
            if next == self.scan_unlink() {
                self.lemma_scan_unlink();
                self.lemma_respects_unlink();
            } else {
                self.lemma_scan_pass();
                self.lemma_respects_words(next, c);
            }
            next.lemma_respects_scan_run(c);
            self.lemma_respects_transitive(next, self.scan_run(), c, Set::empty());
        } else {
            self.lemma_respects_words(self, c);
        }
    }

    /// Nobody holds anything of a collector that is taken out of the chain.
    pub proof fn lemma_respects_unlink(self)
        requires
            self.inv(),
            self.lock matches Lock::Scan(scan) && scan.rest.len() > 0
                && self.collectors[scan.rest[0]].invalid,
        ensures
            self.respects(self.scan_unlink(), self.lock->Scan_0.scanner, Set::empty()),
    {
        let post = self.scan_unlink();
        let scan = self.lock->Scan_0;
        let x = scan.rest[0];
        self.lemma_passed(scan.rest);
        assert forall|d: usize| d != x && #[trigger] self.registered(d) implies post.registered(
            d,
        ) by {
            let i = self.chain.index_of(d);
            if i < self.passed(scan.rest).len() {
                assert(post.chain[i] == d);
            } else {
                assert(post.chain[i - 1] == d);
            }
        }
        assert forall|d: usize, guard: nat| #[trigger] self.guarded(
            d,
            guard,
        ) implies post.guarded(d, guard) && post.collectors[d].session
            == self.collectors[d].session by {
            assert(self.registered(d));
        }
        assert forall|y: usize, token: nat| #[trigger] self.owned(y, token) implies post.owned(
            y,
            token,
        ) by {}
        assert forall|d: usize| d != scan.scanner && d != x && #[trigger] self.calm(
            d,
        ) implies post.calm(d) by {
            assert(self.registered(d));
        }
        assert forall|d: usize| d != scan.scanner && d != x && #[trigger] self.poised(
            d,
        ) implies post.poised(d) by {
            assert(self.registered(d));
        }
    }

    /// A thread without a guard, that has not made it known yet, scans the chain.
    pub proof fn lemma_respects_scan(self, c: usize)
        requires
            self.inv(),
            self.registered(c),
            self.collectors[c].active(),
            self.collectors[c].num_readers == 0,
        ensures
            self.respects(self.scan(c), c, Set::empty()),
            self.scan(c).locals == self.locals,
            self.scan(c).instances == self.instances,
            self.scan(c).dropped == self.dropped,
            self.scan(c).collectors[c].garbage == self.collectors[c].garbage,
            self.scan(c).collectors[c].guards == self.collectors[c].guards,
    {
        if self.lock is Free {
            let locked = self.scan_lock(c);
            self.lemma_scan_lock(c);
            self.lemma_respects_words(locked, c);
            locked.lemma_respects_scan_run(c);
            let run = locked.scan_run();
            self.lemma_respects_transitive(locked, run, c, Set::empty());
            run.lemma_respects_words(run.unlock(), c);
            self.lemma_respects_transitive(run, run.unlock(), c, Set::empty());
        } else {
            self.lemma_respects_words(self, c);
        }
    }

    /// A step may take away what is given up in the course of a greater one.
    pub proof fn lemma_respects_more(self, post: Self, c: usize, gone: Set<nat>)
        requires
            self.respects(post, c, Set::empty()),
        ensures
            self.respects(post, c, gone),
    {
    }

    /// A thread that reclaims has another guard than one that it has got in the course of that.
    pub proof fn lemma_nested(self, c: usize, guard: nat)
        requires
            self.inv(),
            self.guarded(c, guard),
            self.usable(c, guard),
        ensures
            self.collectors[c].num_readers == 1 ==> self.collectors[c].garbage.len() == 0,
            self.collectors[c].pending is None,
    {
        let guards = self.collectors[c].guards;
        assert(self.collectors[c].local_ok());
        vstd::set_lib::lemma_set_empty_equivalency_len(guards);
        if self.collectors[c].garbage.len() > 0 {
            let first = self.collectors[c].session;
            assert(guards.remove(guard).contains(first));
            assert(guards.remove(guard).len() == guards.len() - 1);
            vstd::set_lib::lemma_set_empty_equivalency_len(guards.remove(guard));
        }
    }

    /// A guard is dropped.
    pub proof fn lemma_respects_end_guard(self, c: usize, guard: nat)
        requires
            self.inv(),
            self.guarded(c, guard),
            self.usable(c, guard),
        ensures
            self.end_guard(c, guard).inv(),
            self.respects(self.end_guard(c, guard), c, set![guard]),
            self.end_guard(c, guard).poised(c),
            self.collectors[c].garbage.len() == 0 ==> self.end_guard(c, guard).calm(c),
            self.end_guard(c, guard).locals == self.locals,
            self.end_guard(c, guard).instances == self.instances,
            self.end_guard(c, guard).dropped == self.dropped,
            self.end_guard(c, guard).collectors[c].guards == self.collectors[c].guards.remove(
                guard,
            ),
            self.end_guard(c, guard).collectors[c].num_readers == self.collectors[c].num_readers
                - 1,
            self.end_guard(c, guard).collectors[c].inactive == (self.collectors[c].num_readers
                == 1),
    {
        let gone = set![guard];
        assert(self.collectors[c].local_ok());
        vstd::set_lib::lemma_set_empty_equivalency_len(self.collectors[c].guards);
        self.lemma_nested(c, guard);
        self.lemma_leave(c, guard);
        let left = self.leave(c, guard);
        self.lemma_respects_with(c, left.collectors[c], self.tokens, gone);
        assert(left.registered(c));
        if left.collectors[c].num_readers == 0 {
            left.lemma_unguarded(c);
            left.lemma_scan(c);
            left.lemma_respects_scan(c);
            left.lemma_respects_words(left, c);
            let scanned = if left.scan_due(c) {
                left.scan(c)
            } else {
                left
            };
            let post = self.end_guard(c, guard);
            scanned.lemma_respects_retreat(c);
            left.lemma_respects_transitive(scanned, post, c, Set::empty());
            left.lemma_respects_more(post, c, gone);
            self.lemma_respects_transitive(left, post, c, gone);
        }
    }

    /// A thread makes it known that it has no guard.
    proof fn lemma_respects_retreat(self, c: usize)
        requires
            self.inv(),
            self.registered(c),
            self.collectors[c].num_readers == 0,
            self.collectors[c].pending is None,
            self.collectors[c].garbage.len() == 0,
            !self.collectors[c].invalid,
            !self.scanning(c),
        ensures
            self.retreat(c).inv(),
            self.respects(self.retreat(c), c, Set::empty()),
            self.retreat(c).calm(c),
            self.retreat(c).poised(c),
            self.retreat(c).locals == self.locals,
            self.retreat(c).dropped == self.dropped,
    {
        let post = self.retreat(c);
        self.lemma_retreat(c);
        self.lemma_unguarded(c);
        self.lemma_respects_with(c, post.collectors[c], self.tokens, Set::empty());
        assert(post.registered(c));
    }

    /// Instances come into being or get other strong references, and nothing else happens.
    pub proof fn lemma_honours_instances(self, post: Self, gone: Set<nat>)
        requires
            self.inv(),
            post.chain == self.chain,
            post.collectors == self.collectors,
            post.locals == self.locals,
            self.tokens <= post.tokens,
            self.epoch <= post.epoch,
            forall|x: usize| #[trigger]
                self.instances.contains_key(x) ==> {
                    &&& post.instances.contains_key(x)
                    &&& post.instances[x].body == self.instances[x].body
                    &&& post.instances[x].shared == self.instances[x].shared
                    &&& post.instances[x].retirement == self.instances[x].retirement
                    &&& forall|token: nat|
                        #![trigger post.instances[x].refs.contains(token)]
                        self.instances[x].refs.contains(token) && !gone.contains(token)
                            ==> post.instances[x].refs.contains(token)
                },
        ensures
            self.honours(post, gone),
    {
        assert forall|x: usize, token: nat| #[trigger]
            self.owned(x, token) && !gone.contains(token) implies {
            &&& post.owned(x, token)
            &&& post.instances[x].body == self.instances[x].body
            &&& post.instances[x].shared == self.instances[x].shared
        } by {
            assert(self.instances.contains_key(x));
        }
        self.lemma_respects_instances(post, 0, gone);
        self.lemma_settles(post, 0, gone);
        self.lemma_spares_simple(post);
        self.lemma_honours(post, 0, gone);
    }

    /// A thread gives up its collector.
    pub proof fn lemma_honours_given_up(self, thread: int)
        requires
            self.inv(),
            self.at_rest(thread),
            self.locals[thread] != 0,
            self.collectors[self.locals[thread]].garbage.len() == 0,
        ensures
            ({
                let c = self.locals[thread];
                let post = self.set_local(thread, 0).invalidate(c);
                &&& post.inv()
                &&& self.honours(post, self.collectors[c].guards)
            }),
    {
        let c = self.locals[thread];
        let gone = self.collectors[c].guards;
        let detached = self.set_local(thread, 0);
        let post = detached.invalidate(c);
        assert(self.collectors[c].local_ok());
        self.lemma_set_local(thread, 0);
        if detached.locals.contains(c) {
            let i = detached.locals.index_of(c);
            assert(self.locals[i] == c);
            if i < thread {
                assert(self.locals[i] != self.locals[thread]);
            } else {
                assert(self.locals[thread] != self.locals[i]);
            }
        }
        assert(detached.registered(c));
        detached.lemma_invalidate(c);
        self.lemma_respects_words(detached, c);
        self.lemma_respects_more(detached, c, gone);
        detached.lemma_respects_with(c, post.collectors[c], self.tokens, gone);
        self.lemma_respects_transitive(detached, post, c, gone);
        assert forall|i: int| #[trigger] self.at_rest(i) implies post.at_rest(i) by {
            if i != thread && self.locals[i] != 0 {
                assert(self.locals[i] != c) by {
                    if i < thread {
                        assert(self.locals[i] != self.locals[thread]);
                    } else {
                        assert(self.locals[thread] != self.locals[i]);
                    }
                }
                assert(self.poised(self.locals[i]));
                assert(post.poised(self.locals[i]));
            }
        }
        self.lemma_spares_simple(detached);
        detached.lemma_spares_with(c, post.collectors[c], self.tokens);
        self.lemma_spares_transitive(detached, post);
        self.lemma_honours(post, c, gone);
    }

    /// The chain is marked.
    pub proof fn lemma_honours_mark(self)
        requires
            self.inv(),
        ensures
            self.mark().inv(),
            self.honours(self.mark(), Set::empty()),
    {
        self.lemma_mark();
        self.lemma_honours_words(self.mark());
    }

    /// The chain's lock or mark changes, or a thread comes into being, or what is to be destroyed
    /// is taken away.
    pub proof fn lemma_honours_words(self, post: Self)
        requires
            self.inv(),
            post.chain == self.chain,
            post.collectors == self.collectors,
            post.instances == self.instances,
            post.tokens == self.tokens,
            self.epoch <= post.epoch,
            self.locals.is_prefix_of(post.locals),
        ensures
            self.honours(post, Set::empty()),
    {
        self.lemma_respects_words(post, 0);
        assert forall|thread: int| 0 <= thread < self.locals.len() implies {
            &&& thread < post.locals.len()
            &&& #[trigger] post.locals[thread] == self.locals[thread] || post.locals[thread] == 0
        } by {
            assert(self.locals[thread] == post.locals[thread]);
        }
        self.lemma_settles(post, 0, Set::empty());
        self.lemma_spares_simple(post);
        self.lemma_honours(post, 0, Set::empty());
    }

    /// A thread without guards hands all that it keeps over to others.
    pub proof fn lemma_honours_pass_garbage(self, thread: int)
        requires
            self.inv(),
            self.at_rest(thread),
        ensures
            self.pass_garbage(thread).inv(),
            self.honours(self.pass_garbage(thread), Set::empty()),
    {
        let c = self.locals[thread];
        if c != 0 && self.collectors[c].num_readers == 0 && self.collectors[c].has_garbage {
            assert(self.collectors[c].local_ok());
            self.lemma_honours_given_up(thread);
            vstd::set_lib::lemma_set_empty_equivalency_len(self.collectors[c].guards);
            assert(self.collectors[c].guards =~= Set::empty());
            let given_up = self.set_local(thread, 0).invalidate(c);
            given_up.lemma_honours_mark();
            self.lemma_honours_transitive(given_up, given_up.mark(), Set::empty());
        } else {
            self.lemma_honours_words(self);
        }
    }

    /// A thread clears the chain.
    pub proof fn lemma_respects_clear_chain(self, c: usize)
        requires
            self.inv(),
        ensures
            self.respects(self.clear_chain(), c, Set::empty()),
    {
        let post = self.clear_chain();
        if self.lock is Free {
            self.lemma_cleared();
            if self.all_invalid(self.chain) {
                assert forall|d: usize| #[trigger] self.registered(d) implies self.collectors[d].invalid by {
                    let i = self.chain.index_of(d);
                    assert(self.collectors[self.chain[i]].invalid);
                }
                assert forall|d: usize, guard: nat| !#[trigger] self.guarded(d, guard) by {}
                assert forall|d: usize| !#[trigger] self.calm(d) by {}
                assert forall|d: usize| !#[trigger] self.poised(d) by {}
                assert forall|x: usize, token: nat| #[trigger] self.owned(x, token) implies {
                    &&& post.owned(x, token)
                    &&& post.instances[x].body == self.instances[x].body
                    &&& post.instances[x].shared == self.instances[x].shared
                } by {
                    vstd::set_lib::lemma_set_empty_equivalency_len(self.instances[x].refs);
                    assert(self.instances[x].retirement is None);
                }
            } else {
                self.lemma_respects_words(post, c);
            }
        } else {
            self.lemma_respects_words(self, c);
        }
    }

    /// The temporary collector of a terminating thread leaves the domain.
    pub proof fn lemma_honours_finish_exit(self, thread: int)
        requires
            self.inv(),
            0 <= thread < self.locals.len(),
            self.locals[thread] != 0,
            !self.registered(self.locals[thread]),
            self.spares(self.finish_exit(thread)),
        ensures
            self.honours(self.finish_exit(thread), Set::empty()),
    {
        let c = self.locals[thread];
        let cleared = self.clear(c);
        let post = self.finish_exit(thread);
        self.lemma_drop_bags(c, self.rank(c));
        self.lemma_respects_removal(cleared, c, self.rank(c));
        assert forall|d: usize| #[trigger] self.registered(d) implies d != c && post.registered(d)
            && post.collectors[d] == self.collectors[d] by {
            assert(self.collectors.contains_key(d));
            assert(cleared.collectors.contains_key(d));
        }
        assert forall|d: usize, guard: nat| #[trigger] self.guarded(d, guard) implies {
            &&& post.guarded(d, guard)
            &&& post.collectors[d].session == self.collectors[d].session
        } by {
            assert(self.registered(d));
        }
        assert forall|x: usize, token: nat| #[trigger] self.owned(x, token) implies {
            &&& post.owned(x, token)
            &&& post.instances[x].body == self.instances[x].body
            &&& post.instances[x].shared == self.instances[x].shared
        } by {
            assert(cleared.owned(x, token));
        }
        assert forall|i: int| #[trigger] self.at_rest(i) implies post.at_rest(i) by {
            assert(i != thread);
            if self.locals[i] != 0 {
                assert(self.registered(self.locals[i]));
            }
        }
    }

    /// A thread without a collector gets one outside the chain.
    pub proof fn lemma_honours_temporary(self, thread: int, c: usize)
        requires
            self.inv(),
            0 <= thread < self.locals.len(),
            self.locals[thread] == 0,
            !self.occupied(c),
        ensures
            self.retains(self.add_temporary(c).set_local(thread, c), Set::empty()),
            forall|i: int|
                i != thread && #[trigger] self.at_rest(i) ==> self.add_temporary(c).set_local(
                    thread,
                    c,
                ).at_rest(i),
    {
        let post = self.add_temporary(c).set_local(thread, c);
        assert forall|d: usize| #[trigger] self.registered(d) implies d != c && post.registered(d)
            && post.collectors[d] == self.collectors[d] by {
            assert(self.collectors.contains_key(d));
        }
        assert forall|d: usize, guard: nat| #[trigger] self.guarded(d, guard) implies post.guarded(
            d,
            guard,
        ) && post.collectors[d] == self.collectors[d] by {
            assert(self.registered(d));
        }
        assert forall|x: usize, token: nat| #[trigger] self.owned(x, token) implies post.owned(
            x,
            token,
        ) by {}
        assert forall|d: usize| #[trigger]
            post.pinned(d) && post.collectors[d].session < self.tokens implies self.same_session(
            post,
            d,
        ) by {
            assert(self.registered(d));
        }
        self.lemma_spares_simple(post);
        assert forall|i: int| i != thread && #[trigger] self.at_rest(i) implies post.at_rest(i) by {
            if self.locals[i] != 0 {
                assert(self.registered(self.locals[i]));
            }
        }
    }

    /// What is known of a thread that has a guard.
    pub proof fn lemma_guard(self, c: usize, guard: nat)
        requires
            self.inv(),
            self.guarded(c, guard),
            self.usable(c, guard),
        ensures
            self.pinned(c),
            self.poised(c),
            self.collectors[c].garbage.len() == 0 ==> self.calm(c),
            self.collectors.contains_key(c),
            self.collectors[c].retirement is None,
            self.collectors[c].pending is None,
            self.collectors[c].num_readers > 0,
            self.collectors[c].seen <= self.epoch <= self.collectors[c].seen + 1,
            !self.instances.contains_key(c),
    {
        assert(self.collectors[c].local_ok());
        assert(self.occupied(c));
        vstd::set_lib::lemma_set_empty_equivalency_len(self.collectors[c].guards);
    }

    /// What is known of a thread that has got a collector.
    pub proof fn lemma_current(self, thread: int, c: usize)
        requires
            self.inv(),
            self.at_rest(thread),
            if self.locals[thread] == 0 {
                !self.occupied(c) && c != 0 && c % 4 == 0
            } else {
                c == self.locals[thread]
            },
        ensures
            self.current(thread, c).inv(),
            self.honours(self.current(thread, c), Set::empty()),
            self.current(thread, c).poised(c),
            self.locals[thread] == 0 ==> self.current(thread, c).calm(c),
            self.current(thread, c).locals[thread] == c,
            self.current(thread, c).at_rest(thread),
    {
        let post = self.current(thread, c);
        if self.locals[thread] == 0 {
            self.lemma_enrol(thread, c);
            self.lemma_spares_enrol(thread, c);
            self.lemma_respects_enrol(thread, c);
            assert forall|i: int| #[trigger] self.at_rest(i) implies post.at_rest(i) by {
                if i != thread && self.locals[i] != 0 {
                    assert(self.poised(self.locals[i]));
                    assert(post.poised(self.locals[i]));
                }
            }
            self.lemma_honours(post, c, Set::empty());
        } else {
            self.lemma_spares_self();
        }
    }

    /// See [`Model::lemma_current`].
    pub proof fn lemma_started(self, thread: usize, c: usize)
        requires
            self.inv(),
            self.at_rest(thread as int),
            if self.locals[thread as int] == 0 {
                !self.occupied(c) && c != 0 && c % 4 == 0
            } else {
                c == self.locals[thread as int]
            },
        ensures
            self.started(thread, c).inv(),
            self.started(thread, c).poised(c),
            self.started(thread, c).tokens == self.tokens,
            self.started(thread, c).instances == self.instances,
            self.started(thread, c).collectors[c].num_readers == if self.locals[thread as int] == 0 {
                0
            } else {
                self.collectors[c].num_readers
            },
    {
        self.lemma_current(thread as int, c);
    }

    /// What is known of an instance to which there is a strong reference.
    pub proof fn lemma_owned(self, x: usize, token: nat)
        requires
            self.inv(),
            self.owned(x, token),
        ensures
            self.readable(x),
            self.live(x),
            self.occupied(x),
            token < self.tokens,
            x != 0,
            x % 4 == 0,
    {
        assert(self.occupied(x));
        vstd::set_lib::lemma_set_empty_equivalency_len(self.instances[x].refs);
    }

    /// A step may take away what is given up in the course of a greater one.
    pub proof fn lemma_retains_more(self, post: Self, gone: Set<nat>)
        requires
            self.retains(post, Set::empty()),
        ensures
            self.retains(post, gone),
    {
    }

    /// A step may take away what is given up in the course of a greater one.
    pub proof fn lemma_honours_more(self, post: Self, gone: Set<nat>)
        requires
            self.honours(post, Set::empty()),
        ensures
            self.honours(post, gone),
    {
    }

    /// A thread that reads an instance to which there is a strong reference protects it.
    pub proof fn lemma_reach(self, c: usize, x: usize, token: nat)
        requires
            self.inv(),
            self.pinned(c),
            self.owned(x, token),
        ensures
            self.protects(c, x),
            self.readable(x),
            self.live(x),
            x != 0,
            x % 4 == 0,
    {
        assert(self.occupied(x));
        vstd::set_lib::lemma_set_empty_equivalency_len(self.instances[x].refs);
    }
}

} // verus!

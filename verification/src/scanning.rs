//! What a scan of the chain of collectors amounts to.

use crate::model::{Lock, Model};
use crate::Tag;
use vstd::prelude::*;

verus! {

impl<T, F> Model<T, F> {
    /// A scan goes past a collector that is ready without changing what it will find next.
    pub proof fn lemma_ready_rest(self)
        requires
            self.inv(),
            self.lock matches Lock::Scan(scan) && scan.rest.len() > 0 && self.ready(
                scan.scanner,
                scan.rest[0],
            ),
        ensures
            self.scan_next().lock is Scan,
            self.scan_next().lock->Scan_0.scanner == self.lock->Scan_0.scanner,
            self.scan_next().lock->Scan_0.rest == self.lock->Scan_0.rest.skip(1),
            self.scan_next().all_ready(
                self.lock->Scan_0.scanner,
                self.lock->Scan_0.rest.skip(1),
            ) == self.all_ready(self.lock->Scan_0.scanner, self.lock->Scan_0.rest),
    {
        let scan = self.lock->Scan_0;
        let post = self.scan_next();
        self.lemma_passed(scan.rest);
        assert forall|y: usize| #[trigger] post.ready(scan.scanner, y) == self.ready(
            scan.scanner,
            y,
        ) by {}
        if self.all_ready(scan.scanner, scan.rest) {
            assert forall|i: int| 0 <= i < scan.rest.skip(1).len() implies post.ready(
                scan.scanner,
                #[trigger] scan.rest.skip(1)[i],
            ) by {
                assert(self.ready(scan.scanner, scan.rest[i + 1]));
            }
        }
        if post.all_ready(scan.scanner, scan.rest.skip(1)) {
            assert forall|i: int| 0 <= i < scan.rest.len() implies self.ready(
                scan.scanner,
                #[trigger] scan.rest[i],
            ) by {
                if i > 0 {
                    assert(post.ready(scan.scanner, scan.rest.skip(1)[i - 1]));
                }
            }
        }
    }

    /// What a scan leaves as it is while it is under way.
    proof fn lemma_scan_run(self, c: usize)
        requires
            self.inv(),
            self.lock matches Lock::Scan(scan) && scan.scanner == c,
        ensures
            self.scan_run().inv(),
            self.scan_run().lock is Scan,
            self.scan_run().registered(c),
            self.scan_run().collectors[c].num_readers == self.collectors[c].num_readers,
            self.scan_run().collectors[c].pending == self.collectors[c].pending,
            self.scan_run().collectors[c].invalid == self.collectors[c].invalid,
        decreases self.lock->Scan_0.rest.len(),
    {
        let scan = self.lock->Scan_0;
        if scan.rest.len() == 0 {
            self.lemma_scan_advance();
        } else if self.ready(scan.scanner, scan.rest[0]) {
            self.lemma_ready_rest();
            if self.scan_next() == self.scan_unlink() {
                self.lemma_scan_unlink();
            } else {
                self.lemma_scan_pass();
            }
            self.scan_next().lemma_scan_run(c);
        }
    }

    /// What a scan leaves as it is.
    pub proof fn lemma_scan(self, c: usize)
        requires
            self.inv(),
            self.registered(c),
            self.collectors[c].active(),
            self.collectors[c].num_readers == 0,
        ensures
            self.scan(c).inv(),
            self.scan(c).registered(c),
            self.scan(c).collectors[c].num_readers == 0,
            self.scan(c).collectors[c].pending is None,
            !self.scan(c).collectors[c].invalid,
            !self.scan(c).scanning(c) || !(self.lock is Free),
            self.lock is Free == (self.tag == Tag::Neither || self.tag == Tag::Second),
    {
        assert(self.collectors[c].local_ok());
        if self.lock is Free {
            self.lemma_scan_lock(c);
            self.scan_lock(c).lemma_scan_run(c);
            self.scan_lock(c).scan_run().lemma_unlock();
        }
    }

    /// The scan has left no collector in the chain without going past it.
    pub open spec fn unhindered(self) -> bool {
        let scan = self.lock->Scan_0;
        scan.previous != 0 || self.passed(scan.rest).len() == 0
    }

    /// What one more collector that a scan goes past means for the chain.
    proof fn lemma_scan_next(self)
        requires
            self.inv(),
            self.lock matches Lock::Scan(scan) && scan.rest.len() > 0 && self.ready(
                scan.scanner,
                scan.rest[0],
            ),
            self.unhindered(),
        ensures
            ({
                let scan = self.lock->Scan_0;
                let x = scan.rest[0];
                let post = self.scan_next();
                &&& post.inv()
                &&& post.unhindered()
                &&& post.epoch == self.epoch
                &&& post.lock->Scan_0.known == scan.known
                &&& forall|d: usize| #[trigger]
                    post.registered(d) == (self.registered(d) && !(d == x
                        && self.collectors[x].invalid))
                &&& forall|d: usize|
                    #![trigger post.collectors[d].invalid]
                    self.registered(d) ==> post.collectors[d].invalid == self.collectors[d].invalid
                &&& forall|d: usize|
                    self.registered(d) && d != x ==> (#[trigger] post.collectors[d]).retirement
                        == self.collectors[d].retirement
                &&& self.collectors[x].invalid ==> {
                    &&& post.collectors[x].retirement is Some
                    &&& post.collectors[x].retirement->0.holder == scan.scanner
                }
            }),
    {
        let scan = self.lock->Scan_0;
        let x = scan.rest[0];
        let post = self.scan_next();
        let passed = self.passed(scan.rest);
        self.lemma_passed(scan.rest);
        assert(self.occupied(x)) by {
            assert(self.collectors.contains_key(x));
        }
        if self.collectors[x].invalid {
            if passed.len() == 0 {
                assert(self.chain =~= scan.rest);
            }
            assert(post == self.scan_unlink());
            self.lemma_scan_unlink();
            assert(post.chain =~= passed + scan.rest.skip(1));
            assert(post.passed(scan.rest.skip(1)) =~= passed);
            assert forall|d: usize| #[trigger] post.registered(d) == (self.registered(d) && d
                != x) by {
                let k = passed.len() as int;
                if post.registered(d) {
                    let i = post.chain.index_of(d);
                    if i < k {
                        assert(self.chain[i] == d);
                        assert(self.chain[k] == x);
                    } else {
                        assert(self.chain[i + 1] == d);
                        assert(self.chain[k] == x);
                    }
                }
                if self.registered(d) && d != x {
                    let i = self.chain.index_of(d);
                    if i < k {
                        assert(post.chain[i] == d);
                    } else {
                        assert(post.chain[i - 1] == d);
                    }
                }
            }
        } else {
            assert(post == self.scan_pass());
            self.lemma_scan_pass();
        }
    }

    /// What becomes of the epoch and the chain in the course of a scan.
    proof fn lemma_scan_effect(self)
        requires
            self.inv(),
            self.lock is Scan,
            self.unhindered(),
        ensures
            ({
                let scan = self.lock->Scan_0;
                let all = self.all_ready(scan.scanner, scan.rest);
                let post = self.scan_run();
                &&& post.epoch == if all {
                    scan.known + 1
                } else {
                    self.epoch
                }
                &&& forall|d: usize|
                    #![trigger post.registered(d)]
                    #![trigger self.registered(d)]
                    {
                        &&& post.registered(d) ==> self.registered(d)
                        &&& self.registered(d) && !self.collectors[d].invalid ==> post.registered(d)
                        &&& self.registered(d) && !post.registered(d) ==> {
                            &&& post.collectors[d].retirement is Some
                            &&& post.collectors[d].retirement->0.holder == scan.scanner
                        }
                        &&& all && scan.rest.contains(d) && self.collectors[d].invalid
                            ==> !post.registered(d)
                    }
            }),
        decreases self.lock->Scan_0.rest.len(),
    {
        let scan = self.lock->Scan_0;
        let post = self.scan_run();
        if scan.rest.len() > 0 && self.ready(scan.scanner, scan.rest[0]) {
            let next = self.scan_next();
            self.lemma_ready_rest();
            self.lemma_scan_next();
            next.lemma_scan_effect();
            assert forall|d: usize|
                #![trigger post.registered(d)]
                #![trigger self.registered(d)]
                {
                    &&& post.registered(d) ==> self.registered(d)
                    &&& self.registered(d) && !self.collectors[d].invalid ==> post.registered(d)
                    &&& self.registered(d) && !post.registered(d) ==> {
                        &&& post.collectors[d].retirement is Some
                        &&& post.collectors[d].retirement->0.holder == scan.scanner
                    }
                    &&& self.all_ready(scan.scanner, scan.rest) && scan.rest.contains(d)
                        && self.collectors[d].invalid ==> !post.registered(d)
                } by {
                assert(next.registered(d) == (self.registered(d) && !(d == scan.rest[0]
                    && self.collectors[d].invalid)));
                if scan.rest.contains(d) && d != scan.rest[0] {
                    let i = scan.rest.index_of(d);
                    assert(scan.rest.skip(1)[i - 1] == d);
                    assert(scan.rest.skip(1).contains(d));
                    self.lemma_passed(scan.rest);
                    assert(self.registered(d)) by {
                        assert(self.chain[self.chain.len() - scan.rest.len() + i] == d);
                    }
                }
                if d == scan.rest[0] && self.collectors[d].invalid {
                    self.lemma_passed(scan.rest);
                    assert(!next.registered(d));
                    next.lemma_retired_kept(d);
                }
            }
        } else if scan.rest.len() > 0 {
            assert(!self.all_ready(scan.scanner, scan.rest));
        }
    }

    /// A scan leaves alone what is not in the chain.
    proof fn lemma_retired_kept(self, d: usize)
        requires
            self.inv(),
            self.lock is Scan,
            !self.registered(d),
        ensures
            self.scan_run().collectors[d].retirement == self.collectors[d].retirement,
        decreases self.lock->Scan_0.rest.len(),
    {
        let scan = self.lock->Scan_0;
        if scan.rest.len() > 0 && self.ready(scan.scanner, scan.rest[0]) {
            let next = self.scan_next();
            self.lemma_passed(scan.rest);
            if next == self.scan_unlink() {
                self.lemma_scan_unlink();
                assert(!next.registered(d)) by {
                    if next.registered(d) {
                        let k = self.passed(scan.rest).len() as int;
                        let i = next.chain.index_of(d);
                        if i < k {
                            assert(self.chain[i] == d);
                        } else {
                            assert(self.chain[i + 1] == d);
                        }
                    }
                }
            } else {
                self.lemma_scan_pass();
            }
            next.lemma_retired_kept(d);
        }
    }

    /// What a scan amounts to: the epoch changes if and only if every collector of the chain is
    /// ready, valid collectors stay in the chain, and collectors that leave it are retired by the
    /// scanning thread; if the epoch changes, these are all the invalid ones.
    pub proof fn lemma_scanned(self, c: usize)
        requires
            self.inv(),
            self.lock is Free,
            self.registered(c),
            self.collectors[c].active(),
            self.collectors[c].num_readers == 0,
        ensures
            ({
                let all = self.all_ready(c, self.chain);
                let post = self.scan(c);
                &&& post.epoch == if all {
                    self.collectors[c].seen + 1
                } else {
                    self.epoch
                }
                &&& forall|d: usize|
                    #![trigger post.registered(d)]
                    #![trigger self.registered(d)]
                    {
                        &&& post.registered(d) ==> self.registered(d)
                        &&& self.registered(d) && !self.collectors[d].invalid ==> post.registered(d)
                        &&& self.registered(d) && !post.registered(d) ==> {
                            &&& post.collectors[d].retirement is Some
                            &&& post.collectors[d].retirement->0.holder == c
                        }
                        &&& all && self.registered(d) && self.collectors[d].invalid
                            ==> !post.registered(d)
                    }
            }),
    {
        let locked = self.scan_lock(c);
        self.lemma_scan_lock(c);
        assert(locked.passed(locked.chain).len() == 0);
        locked.lemma_scan_effect();
        let run = locked.scan_run();
        let post = self.scan(c);
        assert forall|d: usize| #[trigger] locked.registered(d) == self.registered(d) by {}
        assert forall|d: usize| #[trigger] post.registered(d) == run.registered(d) by {}
        assert(locked.all_ready(c, self.chain) == self.all_ready(c, self.chain)) by {
            assert forall|x: usize| #[trigger] locked.ready(c, x) == self.ready(c, x) by {}
            if self.all_ready(c, self.chain) {
                assert forall|i: int| 0 <= i < self.chain.len() implies locked.ready(
                    c,
                    #[trigger] self.chain[i],
                ) by {
                    assert(self.ready(c, self.chain[i]));
                }
            }
            if locked.all_ready(c, self.chain) {
                assert forall|i: int| 0 <= i < self.chain.len() implies self.ready(
                    c,
                    #[trigger] self.chain[i],
                ) by {
                    assert(locked.ready(c, self.chain[i]));
                }
            }
        }
    }

    /// The collectors of a list that their threads have not given up, in the same order.
    pub open spec fn upheld(self, list: Seq<usize>) -> Seq<usize>
        decreases list.len(),
    {
        if list.len() == 0 {
            Seq::empty()
        } else if self.collectors[list[0]].invalid {
            self.upheld(list.skip(1))
        } else {
            seq![list[0]] + self.upheld(list.skip(1))
        }
    }

    /// The collectors of a list that their threads have given up, in the opposite order.
    pub open spec fn given_up(self, list: Seq<usize>) -> Seq<usize>
        decreases list.len(),
    {
        if list.len() == 0 {
            Seq::empty()
        } else if self.collectors[list[0]].invalid {
            self.given_up(list.skip(1)).push(list[0])
        } else {
            self.given_up(list.skip(1))
        }
    }

    /// Which collectors of a list have been given up is all that matters.
    proof fn lemma_given_up_frame(self, post: Self, list: Seq<usize>)
        requires
            forall|i: int|
                0 <= i < list.len() ==> post.collectors[#[trigger] list[i]].invalid
                    == self.collectors[list[i]].invalid,
        ensures
            post.upheld(list) == self.upheld(list),
            post.given_up(list) == self.given_up(list),
        decreases list.len(),
    {
        if list.len() > 0 {
            let first: int = 0;
            assert(post.collectors[list[first]].invalid == self.collectors[list[first]].invalid);
            assert forall|i: int| 0 <= i < list.skip(1).len() implies post.collectors[
                #[trigger] list.skip(1)[i]
            ].invalid == self.collectors[list.skip(1)[i]].invalid by {
                assert(list.skip(1)[i] == list[i + 1]);
            }
            self.lemma_given_up_frame(post, list.skip(1));
        }
    }

    /// What a scan that ends in an epoch change makes of the rest of the chain.
    proof fn lemma_scan_order(self)
        requires
            self.inv(),
            self.lock is Scan,
            self.unhindered(),
            self.all_ready(self.lock->Scan_0.scanner, self.lock->Scan_0.rest),
        ensures
            ({
                let scan = self.lock->Scan_0;
                let post = self.scan_run();
                &&& post.chain == self.passed(scan.rest) + self.upheld(scan.rest)
                &&& post.collectors[scan.scanner].current == self.given_up(scan.rest)
                    + self.collectors[scan.scanner].current
            }),
        decreases self.lock->Scan_0.rest.len(),
    {
        let scan = self.lock->Scan_0;
        let post = self.scan_run();
        let passed = self.passed(scan.rest);
        if scan.rest.len() == 0 {
            assert(post.chain =~= passed + self.upheld(scan.rest));
            assert(post.collectors[scan.scanner].current =~= self.given_up(scan.rest)
                + self.collectors[scan.scanner].current);
        } else {
            let x = scan.rest[0];
            let rest = scan.rest.skip(1);
            let next = self.scan_next();
            let first: int = 0;
            assert(self.ready(scan.scanner, scan.rest[first]));
            self.lemma_passed(scan.rest);
            self.lemma_ready_rest();
            self.lemma_scan_next();
            next.lemma_scan_order();
            assert forall|i: int| 0 <= i < rest.len() implies next.collectors[
                #[trigger] rest[i]
            ].invalid == self.collectors[rest[i]].invalid by {
                assert(self.chain[self.chain.len() - scan.rest.len() + i + 1] == rest[i]);
                assert(self.registered(rest[i]));
            }
            self.lemma_given_up_frame(next, rest);
            let current = self.collectors[scan.scanner].current;
            if self.collectors[x].invalid {
                if passed.len() == 0 {
                    assert(self.chain =~= scan.rest);
                }
                assert(next == self.scan_unlink());
                assert(next.chain =~= passed + rest);
                assert(next.passed(rest) =~= passed);
                assert(next.collectors[scan.scanner].current =~= seq![x] + current);
                assert(self.given_up(rest) + (seq![x] + current) =~= self.given_up(scan.rest)
                    + current);
            } else {
                assert(next == self.scan_pass());
                assert(next.passed(rest) =~= passed.push(x));
                assert(passed.push(x) + self.upheld(rest) =~= passed + self.upheld(scan.rest));
            }
        }
    }

    /// A scan that ends in an epoch change leaves in the chain, in the same order, the collectors
    /// that their threads have not given up. The others are put in front of what the scanning
    /// thread has retired most recently.
    pub proof fn lemma_scanned_order(self, c: usize)
        requires
            self.inv(),
            self.lock is Free,
            self.registered(c),
            self.collectors[c].active(),
            self.collectors[c].num_readers == 0,
            self.all_ready(c, self.chain),
        ensures
            self.scan(c).chain == self.upheld(self.chain),
            self.scan(c).collectors[c].current == self.given_up(self.chain)
                + self.collectors[c].current,
    {
        let locked = self.scan_lock(c);
        self.lemma_scan_lock(c);
        assert(locked.passed(locked.chain).len() == 0);
        assert forall|i: int| 0 <= i < self.chain.len() implies locked.ready(
            c,
            #[trigger] self.chain[i],
        ) by {
            assert(self.ready(c, self.chain[i]));
        }
        locked.lemma_scan_order();
        self.lemma_given_up_frame(locked, self.chain);
        assert(locked.passed(locked.chain) + self.upheld(self.chain) =~= self.upheld(self.chain));
    }

    /// A scan under way destroys no collector.
    proof fn lemma_scan_run_occupied(self, d: usize)
        requires
            self.inv(),
            self.lock is Scan,
            self.collectors.contains_key(d),
        ensures
            self.scan_run().collectors.contains_key(d),
        decreases self.lock->Scan_0.rest.len(),
    {
        let scan = self.lock->Scan_0;
        if scan.rest.len() > 0 && self.ready(scan.scanner, scan.rest[0]) {
            self.lemma_ready_rest();
            if self.scan_next() == self.scan_unlink() {
                self.lemma_scan_unlink();
            } else {
                self.lemma_scan_pass();
            }
            self.scan_next().lemma_scan_run_occupied(d);
        }
    }

    /// A scan destroys no collector.
    pub proof fn lemma_scan_occupied(self, c: usize, d: usize)
        requires
            self.inv(),
            self.lock is Free,
            self.registered(c),
            self.collectors[c].active(),
            self.collectors[c].num_readers == 0,
            self.registered(d),
        ensures
            self.scan(c).collectors.contains_key(d),
    {
        self.lemma_scan_lock(c);
        self.scan_lock(c).lemma_scan_run_occupied(d);
    }
}

} // verus!

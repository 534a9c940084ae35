//! What holds of a domain in every state that threads can bring it to.

use crate::model::{ClearModel, CollectorModel, Lock, Model, ScanModel};
use crate::Tag;
use crate::{epoch, model};
use vstd::prelude::*;

verus! {

impl CollectorModel {
    /// The fields that only the thread of the collector changes fit together.
    pub open spec fn local_ok(self) -> bool {
        &&& self.announcement < 4
        &&& self.pending is Some ==> {
            &&& self.inactive
            &&& !self.invalid
            &&& self.num_readers == 1
            &&& self.seen <= self.pending->0
        }
        &&& self.pending is None && self.num_readers > 0 ==> !self.inactive
        &&& !self.invalid ==> {
            &&& self.guards.finite()
            &&& self.guards.len() == if self.pending is Some {
                0
            } else {
                self.num_readers
            }
        }
        &&& !self.inactive ==> self.announcement == epoch::epoch_word(self.seen)
        &&& self.announcement != epoch::epoch_word(self.seen) ==> {
            &&& self.previous.len() == 0
            &&& self.next.len() == 0
            &&& self.garbage.len() == 0
        }
        &&& self.garbage.len() > 0 ==> {
            &&& self.num_readers > 0
            &&& !self.inactive
            &&& self.guards.contains(self.session)
        }
        &&& self.previous.len() + self.current.len() + self.next.len() > 0 ==> self.has_garbage
    }
}

impl CollectorModel {
    /// The collector says that there are retired instances if and only if it keeps some that are not
    /// being reclaimed.
    pub open spec fn flag_ok(self) -> bool {
        self.has_garbage == (self.previous.len() + self.current.len() + self.next.len() > 0)
    }
}

impl<T, F> Model<T, F> {
    /// Addresses are not null, leave room for a tag, and belong to one thing each.
    pub open spec fn space_ok(self) -> bool {
        forall|a: usize| #[trigger]
            self.occupied(a) ==> {
                &&& a != 0
                &&& a % 4 == 0
                &&& !(self.collectors.contains_key(a) && self.instances.contains_key(a))
            }
    }

    /// The chain consists of collectors that have not been retired.
    pub open spec fn chain_ok(self) -> bool {
        &&& self.chain.no_duplicates()
        &&& forall|c: usize| #[trigger]
            self.registered(c) ==> self.collectors.contains_key(c)
                && self.collectors[c].retirement is None
    }

    /// `c` keeps `x`, which was retired into it.
    pub open spec fn keeps(self, c: usize, x: usize) -> bool {
        &&& self.retirement(x) matches Some(retirement) && {
            &&& retirement.holder == c
            &&& retirement.serial < self.rank(c)
        }
    }

    /// What a collector keeps was retired into it, and before the collector itself.
    pub open spec fn bags_ok(self) -> bool {
        &&& forall|c: usize| #[trigger]
            self.collectors.contains_key(c) ==> {
                &&& self.collectors[c].distinct()
                &&& self.collectors[c].invalid ==> self.collectors[c].garbage.len() == 0
                &&& self.collectors[c].retirement is Some ==> self.collectors[c].invalid
            }
        &&& forall|c: usize, x: usize|
            self.collectors.contains_key(c) && #[trigger] self.collectors[c].holds(x)
                ==> self.keeps(c, x)
    }

    /// What was retired is kept by the collector that it was retired into.
    pub open spec fn held_ok(self) -> bool {
        forall|a: usize| (#[trigger] self.retirement(a)) is Some ==> {
            let retirement = self.retirement(a)->0;
            &&& self.collectors.contains_key(retirement.holder)
            &&& self.collectors[retirement.holder].holds(a)
            &&& retirement.serial < self.tokens
        }
    }

    /// There are finitely many instances. Only one that has not been retired has strong references,
    /// and one that is not reference-counted has one at most.
    pub open spec fn instances_ok(self) -> bool {
        &&& self.instances.dom().finite()
        &&& forall|x: usize| #[trigger]
            self.instances.contains_key(x) ==> {
                let instance = self.instances[x];
                &&& instance.refs.finite()
                &&& forall|token: nat| #[trigger]
                    instance.refs.contains(token) ==> token < self.tokens
                &&& instance.retirement is Some ==> instance.refs.len() == 0
                &&& instance.refs.len() > 0 ==> instance.body is Instance
                &&& instance.shared ==> 2 * instance.refs.len() - 1 <= usize::MAX
                &&& !instance.shared ==> instance.refs.len() <= 1
            }
    }

    /// What holds even while the chain is being cleared.
    pub open spec fn structure(self) -> bool {
        &&& self.space_ok()
        &&& self.chain_ok()
        &&& self.bags_ok()
        &&& self.held_ok()
        &&& self.instances_ok()
    }

    /// Collectors outside the chain are retired, or they are temporary and nobody waits for what
    /// they keep.
    pub open spec fn outside_ok(self) -> bool {
        &&& forall|c: usize| #[trigger]
            self.collectors.contains_key(c) && !self.registered(c)
                && self.collectors[c].retirement is None ==> {
                &&& self.collectors[c].inactive
                &&& !self.collectors[c].invalid
                &&& self.collectors[c].pending is None
            }
        &&& forall|a: usize|
            (#[trigger] self.retirement(a)) is Some && !self.registered(self.retirement(a)->0.holder)
                && self.collectors[self.retirement(a)->0.holder].retirement is None
                ==> self.retirement(a)->0.readers =~= Set::empty() && self.instances.contains_key(a)
    }

    /// A thread that reads holds the epoch back: it is at most one ahead.
    pub open spec fn epochs_ok(self) -> bool {
        &&& self.tokens > 0
        &&& forall|c: usize| #[trigger]
            self.collectors.contains_key(c) ==> {
                let collector = self.collectors[c];
                &&& collector.local_ok()
                &&& collector.seen <= self.epoch
                &&& collector.session < self.tokens
                &&& forall|guard: nat| #[trigger]
                    collector.guards.contains(guard) ==> guard < self.tokens
                &&& collector.pending is Some ==> collector.pending->0 <= self.epoch
                &&& self.registered(c) ==> collector.flag_ok()
                &&& self.registered(c) && collector.active() ==> self.epoch <= collector.seen + 1
                &&& self.registered(c) && collector.pending is Some ==> self.epoch
                    <= collector.pending->0 + 1
            }
    }

    /// The further a list is from being reclaimed, the later its instances were retired.
    pub open spec fn stamps_ok(self) -> bool {
        &&& forall|a: usize| (#[trigger] self.retirement(a)) is Some ==> self.retirement(a)->0.stamp
            <= self.epoch
        &&& forall|c: usize, x: usize|
            self.collectors.contains_key(c) && #[trigger] self.collectors[c].holds(x)
                ==> self.stamp_ok(c, x)
    }

    /// See [`Model::stamps_ok`].
    pub open spec fn stamp_ok(self, c: usize, x: usize) -> bool {
        let collector = self.collectors[c];
        let stamp = self.retirement(x)->0.stamp;
        &&& collector.previous.contains(x) ==> stamp <= collector.seen
        &&& collector.next.contains(x) ==> stamp + 1 <= collector.seen
        &&& collector.garbage.contains(x) ==> stamp + 2 <= collector.seen
        &&& collector.pending is Some ==> stamp <= collector.pending->0
        &&& collector.retirement is Some ==> stamp <= collector.retirement->0.stamp
    }

    /// The lists of the collector may be moved one place on: the thread has the guard that it has
    /// been reading with from the start.
    pub open spec fn due(self, c: usize) -> bool {
        let collector = self.collectors[c];
        &&& collector.guards.contains(collector.session)
        &&& collector.garbage.len() == 0
        &&& forall|x: usize| #[trigger]
            collector.holds(x) ==> {
                let stamp = self.retirement(x)->0.stamp;
                &&& collector.current.contains(x) ==> stamp <= collector.seen
                &&& collector.previous.contains(x) ==> stamp + 1 <= collector.seen
                &&& collector.next.contains(x) ==> stamp + 2 <= collector.seen
            }
    }

    /// A thread that read when an instance was retired, and still does, has not seen a later epoch
    /// than that.
    pub open spec fn readers_ok(self) -> bool {
        &&& forall|a: usize, s: nat|
            (#[trigger] self.retirement(a)) is Some && #[trigger] self.retirement(
                a,
            )->0.readers.contains(s) ==> s < self.tokens
        &&& forall|a: usize, c: usize|
            (#[trigger] self.retirement(a)) is Some && #[trigger] self.pinned(c)
                && self.retirement(a)->0.readers.contains(self.collectors[c].session)
                ==> self.collectors[c].seen <= self.retirement(a)->0.stamp
    }

    /// The collector does not keep the scan from advancing the epoch.
    pub open spec fn caught_up(self, c: usize, known: nat) -> bool {
        let collector = self.collectors[c];
        &&& collector.active() ==> known <= collector.seen
        &&& collector.pending is Some ==> known <= collector.pending->0
    }

    /// Whoever has locked the chain has the tag set, and knows what is true of the collectors it
    /// went past.
    pub open spec fn lock_ok(self) -> bool {
        match self.lock {
            Lock::Free => self.tag == Tag::Neither || self.tag == Tag::Second,
            Lock::Scan(scan) => {
                &&& self.tag == Tag::First || self.tag == Tag::Both
                &&& self.scan_ok(scan)
            },
            Lock::Clear(clear) => {
                &&& self.tag == Tag::First || self.tag == Tag::Both
                &&& self.clear_ok(clear)
            },
        }
    }

    /// See [`Model::lock_ok`].
    pub open spec fn scan_ok(self, scan: ScanModel) -> bool {
        let passed = self.passed(scan.rest);
        &&& scan.rest.is_suffix_of(self.chain)
        &&& self.registered(scan.scanner)
        &&& self.collectors[scan.scanner].active()
        &&& self.collectors[scan.scanner].num_readers == 0
        &&& self.collectors[scan.scanner].seen == scan.known
        &&& scan.previous != 0 ==> passed.len() > 0 && passed.last() == scan.previous
        &&& forall|c: usize| #[trigger] passed.contains(c) ==> self.caught_up(c, scan.known)
    }

    /// See [`Model::lock_ok`].
    pub open spec fn clear_ok(self, clear: ClearModel) -> bool {
        let tail = clear.walked + clear.rest;
        &&& tail.is_suffix_of(self.chain)
        &&& clear.head == model::first_of(tail)
        &&& forall|c: usize| #[trigger] clear.walked.contains(c) ==> self.collectors[c].invalid
    }

    /// The collector of a thread is a valid one, and of no other thread.
    pub open spec fn locals_ok(self) -> bool {
        &&& forall|i: int|
            0 <= i < self.locals.len() && #[trigger] self.locals[i] != 0 ==> {
                &&& self.collectors.contains_key(self.locals[i])
                &&& self.collectors[self.locals[i]].retirement is None
                &&& !self.collectors[self.locals[i]].invalid
            }
        &&& forall|i: int, j: int|
            0 <= i < j < self.locals.len() && #[trigger] self.locals[i] != 0
                ==> self.locals[i] != #[trigger] self.locals[j]
    }

    /// The thread exists, and instances can be retired by it.
    pub open spec fn accepting(self, thread: int) -> bool {
        &&& 0 <= thread < self.locals.len()
        &&& self.locals[thread] != 0 ==> self.collectors[self.locals[thread]].pending is None
    }

    /// The thread exists, and is not in the middle of anything but reclaiming.
    pub open spec fn at_rest(self, thread: int) -> bool {
        &&& 0 <= thread < self.locals.len()
        &&& self.locals[thread] != 0 ==> {
            &&& self.registered(self.locals[thread])
            &&& self.collectors[self.locals[thread]].settled()
        }
    }

    /// What holds even while the collectors of a cleared chain are being destroyed.
    pub open spec fn steady(self) -> bool {
        &&& self.structure()
        &&& self.epochs_ok()
        &&& self.stamps_ok()
        &&& self.readers_ok()
        &&& self.lock_ok()
        &&& self.locals_ok()
    }

    /// What holds between any two steps of the threads, strong references aside.
    pub open spec fn sound(self) -> bool {
        &&& self.space_ok()
        &&& self.chain_ok()
        &&& self.bags_ok()
        &&& self.held_ok()
        &&& self.outside_ok()
        &&& self.epochs_ok()
        &&& self.stamps_ok()
        &&& self.readers_ok()
        &&& self.lock_ok()
        &&& self.locals_ok()
    }

    /// What holds between any two steps of the threads.
    pub open spec fn inv(self) -> bool {
        &&& self.sound()
        &&& self.instances_ok()
    }
}

} // verus!

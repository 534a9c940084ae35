//! The mathematical model of a [`Domain`](crate::Domain): what its shared words, its collectors
//! and its instances amount to, and what one step of a thread makes of them.

use crate::collectible::DeferredClosure;
use crate::epoch;
use crate::Tag;
use vstd::prelude::*;

verus! {

/// What is left to be destroyed of something that has been reclaimed: an instance is dropped, and a
/// closure is executed.
pub enum Payload<T, F> {
    /// An instance.
    Instance(T),
    /// A closure.
    Closure(DeferredClosure<F>),
}

/// The four lists of retired instances that a collector keeps.
#[derive(Clone, Copy, Debug, Eq, PartialEq, Structural)]
pub enum Bag {
    /// Retired before the last epoch change that the thread has acknowledged.
    Previous,
    /// Retired since then.
    Current,
    /// Retired one epoch change before those in `Previous`.
    Next,
    /// Taken out of `Next`, and being destroyed.
    Garbage,
}

/// When and where an instance was retired.
pub struct Retirement {
    /// The collector that keeps the instance.
    pub holder: usize,
    /// The rank of the retirement among all retirements.
    pub serial: nat,
    /// The number of epoch changes up to then.
    pub stamp: nat,
    /// The pinned sessions of the threads that might still read the instance.
    pub readers: Set<nat>,
}

/// The model of a collector.
#[verifier::ext_equal]
pub struct CollectorModel {
    /// The epoch value that the thread announced last.
    pub announcement: u8,
    /// The thread has not announced that it reads.
    pub inactive: bool,
    /// The thread has given up the collector.
    pub invalid: bool,
    /// The number of guards to be dropped until the next scan.
    pub next_epoch_update: u8,
    /// There may be retired instances.
    pub has_garbage: bool,
    /// The number of guards in the thread.
    pub num_readers: u32,
    /// Instances in [`Bag::Previous`], the most recent first.
    pub previous: Seq<usize>,
    /// Instances in [`Bag::Current`], the most recent first.
    pub current: Seq<usize>,
    /// Instances in [`Bag::Next`], the most recent first.
    pub next: Seq<usize>,
    /// Instances in [`Bag::Garbage`], the one to be destroyed next first.
    pub garbage: Seq<usize>,
    /// The number of epoch changes that the last announcement stands for.
    pub seen: nat,
    /// Identifies the period in which the thread has been reading without interruption.
    pub session: nat,
    /// The epoch that the thread has loaded, but not announced.
    pub pending: Option<nat>,
    /// The guards in the thread.
    pub guards: Set<nat>,
    /// Set once the collector itself is retired.
    pub retirement: Option<Retirement>,
}

/// The model of an instance.
#[verifier::ext_equal]
pub struct InstanceModel<T, F> {
    /// What is destroyed when the instance is reclaimed.
    pub body: Payload<T, F>,
    /// The instance is reference-counted.
    pub shared: bool,
    /// The strong references to the instance.
    pub refs: Set<nat>,
    /// Set once the instance is retired.
    pub retirement: Option<Retirement>,
}

/// A walk over the chain of collectors that may end in an epoch change.
#[verifier::ext_equal]
pub struct ScanModel {
    /// The collector of the scanning thread.
    pub scanner: usize,
    /// The epoch that every other thread has to be found in.
    pub known: nat,
    /// The collector before the next one, null at the outset.
    pub previous: usize,
    /// The collectors that have not been looked at.
    pub rest: Seq<usize>,
}

/// A walk over the chain of collectors that may end with all of them destroyed.
#[verifier::ext_equal]
pub struct ClearModel {
    /// The head of the chain at the outset, null if there was none.
    pub head: usize,
    /// The collectors that were found to be invalid.
    pub walked: Seq<usize>,
    /// The collectors that have not been looked at.
    pub rest: Seq<usize>,
}

/// What the lock on the chain is held for.
pub enum Lock {
    /// The chain is not locked.
    Free,
    /// A thread scans the chain.
    Scan(ScanModel),
    /// A terminating thread tries to clear the chain.
    Clear(ClearModel),
}

/// The model of a [`Domain`](crate::Domain).
#[verifier::ext_equal]
pub struct Model<T, F> {
    /// The number of epoch changes so far.
    pub epoch: nat,
    /// The tag on the head of the chain.
    pub tag: Tag,
    /// The collectors that take part in epoch changes, the youngest first.
    pub chain: Seq<usize>,
    /// What the lock on the chain is held for.
    pub lock: Lock,
    /// All the collectors, by their addresses.
    pub collectors: Map<usize, CollectorModel>,
    /// All the instances, by their addresses.
    pub instances: Map<usize, InstanceModel<T, F>>,
    /// The collector of each thread, null if it has none.
    pub locals: Seq<usize>,
    /// What has been taken off the collectors to be destroyed, the earliest first.
    pub dropped: Seq<Payload<T, F>>,
    /// The identifiers below this one have been handed out.
    pub tokens: nat,
}

/// The first item of a list, or null.
pub open spec fn first_of(list: Seq<usize>) -> usize {
    if list.len() == 0 {
        0
    } else {
        list[0]
    }
}

/// The counter's value after an instance has been collected.
pub open spec fn hastened(next_epoch_update: u8) -> u8 {
    if next_epoch_update == 0 {
        0
    } else if next_epoch_update > 63 {
        63
    } else {
        (next_epoch_update - 1) as u8
    }
}

impl CollectorModel {
    /// A collector that has just been allocated.
    pub open spec fn new(epoch: nat) -> Self {
        CollectorModel {
            announcement: 0,
            inactive: true,
            invalid: false,
            next_epoch_update: 0,
            has_garbage: false,
            num_readers: 0,
            previous: Seq::empty(),
            current: Seq::empty(),
            next: Seq::empty(),
            garbage: Seq::empty(),
            seen: epoch,
            session: 0,
            pending: None,
            guards: Set::empty(),
            retirement: None,
        }
    }

    /// The thread is known to read.
    pub open spec fn active(self) -> bool {
        !self.inactive && !self.invalid
    }

    /// The word that other threads read.
    pub open spec fn state(self) -> int {
        self.announcement + (if self.inactive { 4int } else { 0 }) + (if self.invalid { 8int } else {
            0
        })
    }

    /// The thread is not in the middle of creating a guard or dropping its last one.
    pub open spec fn settled(self) -> bool {
        &&& self.pending is None
        &&& self.num_readers == 0 ==> self.inactive
    }

    /// One of the lists.
    pub open spec fn bag(self, bag: Bag) -> Seq<usize> {
        match bag {
            Bag::Previous => self.previous,
            Bag::Current => self.current,
            Bag::Next => self.next,
            Bag::Garbage => self.garbage,
        }
    }

    /// Replaces one of the lists.
    pub open spec fn with_bag(self, bag: Bag, list: Seq<usize>) -> Self {
        match bag {
            Bag::Previous => CollectorModel { previous: list, ..self },
            Bag::Current => CollectorModel { current: list, ..self },
            Bag::Next => CollectorModel { next: list, ..self },
            Bag::Garbage => CollectorModel { garbage: list, ..self },
        }
    }

    /// The collector keeps the instance.
    pub open spec fn holds(self, x: usize) -> bool {
        ||| self.previous.contains(x)
        ||| self.current.contains(x)
        ||| self.next.contains(x)
        ||| self.garbage.contains(x)
    }

    /// No instance is kept twice.
    pub open spec fn distinct(self) -> bool {
        &&& self.previous.no_duplicates()
        &&& self.current.no_duplicates()
        &&& self.next.no_duplicates()
        &&& self.garbage.no_duplicates()
        &&& self.previous.disjoint(self.current)
        &&& self.previous.disjoint(self.next)
        &&& self.previous.disjoint(self.garbage)
        &&& self.current.disjoint(self.next)
        &&& self.current.disjoint(self.garbage)
        &&& self.next.disjoint(self.garbage)
    }

    /// The collector with one more retired instance.
    pub open spec fn collected(self, x: usize) -> Self {
        CollectorModel {
            current: seq![x] + self.current,
            next_epoch_update: hastened(self.next_epoch_update),
            has_garbage: true,
            ..self
        }
    }

    /// The number of guards to be dropped until the next scan after the last guard was dropped.
    pub open spec fn renewed(self) -> u8 {
        if self.next_epoch_update > 0 {
            (self.next_epoch_update - 1) as u8
        } else if self.has_garbage {
            63
        } else {
            255
        }
    }

    /// The collector with all its lists moved one place on, after an epoch change.
    pub open spec fn rotated(self) -> Self {
        CollectorModel {
            current: Seq::empty(),
            previous: self.current,
            next: self.previous,
            garbage: self.next,
            has_garbage: self.current.len() > 0 || self.previous.len() > 0,
            ..self
        }
    }
}

impl<T, F> Model<T, F> {
    /// A domain without threads and instances.
    pub open spec fn new() -> Self {
        Model {
            epoch: 0,
            tag: Tag::Neither,
            chain: Seq::empty(),
            lock: Lock::Free,
            collectors: Map::empty(),
            instances: Map::empty(),
            locals: Seq::empty(),
            dropped: Seq::empty(),
            tokens: 1,
        }
    }

    /// Replaces a collector.
    pub open spec fn with(self, c: usize, collector: CollectorModel) -> Self {
        Model { collectors: self.collectors.insert(c, collector), ..self }
    }

    /// There is a collector or an instance at the address.
    pub open spec fn occupied(self, a: usize) -> bool {
        self.collectors.contains_key(a) || self.instances.contains_key(a)
    }

    /// When and where the collector or the instance at the address was retired.
    pub open spec fn retirement(self, a: usize) -> Option<Retirement> {
        if self.collectors.contains_key(a) {
            self.collectors[a].retirement
        } else if self.instances.contains_key(a) {
            self.instances[a].retirement
        } else {
            None
        }
    }

    /// The collector takes part in epoch changes.
    pub open spec fn registered(self, c: usize) -> bool {
        self.chain.contains(c)
    }

    /// The thread of the collector is known to read.
    pub open spec fn pinned(self, c: usize) -> bool {
        self.registered(c) && self.collectors.contains_key(c) && self.collectors[c].active()
    }

    /// The sessions of all the threads that are known to read.
    pub open spec fn sessions(self) -> Set<nat> {
        Set::new(|s: nat| exists|c: usize| #[trigger] self.pinned(c) && self.collectors[c].session == s)
    }

    /// A retirement that takes place now.
    pub open spec fn retirement_now(self, holder: usize) -> Retirement {
        Retirement {
            holder,
            serial: self.tokens,
            stamp: self.epoch,
            readers: if self.registered(holder) {
                self.sessions()
            } else {
                Set::empty()
            },
        }
    }

    /// The collector scans the chain.
    pub open spec fn scanning(self, c: usize) -> bool {
        self.lock matches Lock::Scan(scan) && scan.scanner == c
    }

    /// The part of the chain before `rest`.
    pub open spec fn passed(self, rest: Seq<usize>) -> Seq<usize> {
        self.chain.take(self.chain.len() - rest.len())
    }

    // Threads and collectors.

    /// A thread comes into being.
    pub open spec fn attach(self) -> Self {
        Model { locals: self.locals.push(0), ..self }
    }

    /// A collector comes into being at address `c`, and at the head of the chain.
    pub open spec fn enlist(self, c: usize) -> Self {
        Model {
            chain: seq![c] + self.chain,
            collectors: self.collectors.insert(c, CollectorModel::new(self.epoch)),
            ..self
        }
    }

    /// A thread gets a collector at address `c`.
    pub open spec fn enrol(self, thread: int, c: usize) -> Self {
        self.enlist(c).set_local(thread, c)
    }

    /// A thread gets a collector, at address `c`, unless it has one.
    pub open spec fn current(self, thread: int, c: usize) -> Self {
        if self.locals[thread] == 0 {
            self.enrol(thread, c)
        } else {
            self
        }
    }

    /// See [`Model::current`].
    pub open spec fn started(self, thread: usize, c: usize) -> Self {
        self.current(thread as int, c)
    }

    /// A thread without a guard loads the epoch.
    pub open spec fn enter(self, c: usize) -> Self {
        self.with(
            c,
            CollectorModel {
                num_readers: 1,
                pending: Some(self.epoch),
                ..self.collectors[c]
            },
        )
    }

    /// A thread announces the epoch that it has loaded, and so gets its first guard.
    pub open spec fn announce(self, c: usize) -> Self {
        let collector = self.collectors[c];
        let epoch = collector.pending->0;
        Model {
            tokens: self.tokens + 1,
            ..self.with(
                c,
                CollectorModel {
                    announcement: epoch::epoch_word(epoch),
                    inactive: false,
                    seen: epoch,
                    session: self.tokens,
                    pending: None,
                    guards: set![self.tokens],
                    ..collector
                },
            )
        }
    }

    /// A thread with a guard gets another one.
    pub open spec fn nest(self, c: usize) -> Self {
        let collector = self.collectors[c];
        Model {
            tokens: self.tokens + 1,
            ..self.with(
                c,
                CollectorModel {
                    num_readers: (collector.num_readers + 1) as u32,
                    guards: collector.guards.insert(self.tokens),
                    ..collector
                },
            )
        }
    }

    /// A thread acknowledges an epoch change.
    pub open spec fn rotate(self, c: usize) -> Self {
        self.with(c, self.collectors[c].rotated())
    }

    /// A guard is dropped.
    pub open spec fn leave(self, c: usize, guard: nat) -> Self {
        let collector = self.collectors[c];
        self.with(
            c,
            CollectorModel {
                num_readers: (collector.num_readers - 1) as u32,
                guards: collector.guards.remove(guard),
                ..collector
            },
        )
    }

    /// A thread that dropped its last guard makes it known.
    pub open spec fn retreat(self, c: usize) -> Self {
        self.with(
            c,
            CollectorModel {
                inactive: true,
                next_epoch_update: self.collectors[c].renewed(),
                ..self.collectors[c]
            },
        )
    }

    /// A thread gives up its collector.
    pub open spec fn invalidate(self, c: usize) -> Self {
        self.with(c, CollectorModel { invalid: true, ..self.collectors[c] })
    }

    /// The next scan is made urgent.
    pub open spec fn hasten(self, c: usize) -> Self {
        self.with(c, CollectorModel { next_epoch_update: 0, ..self.collectors[c] })
    }

    /// The collector of a thread is replaced.
    pub open spec fn set_local(self, thread: int, c: usize) -> Self {
        Model { locals: self.locals.update(thread, c), ..self }
    }

    /// A collector outside the chain comes into being.
    pub open spec fn add_temporary(self, c: usize) -> Self {
        self.with(c, CollectorModel::new(self.epoch))
    }

    /// A collector outside the chain ceases to exist.
    pub open spec fn remove_temporary(self, c: usize) -> Self {
        Model { collectors: self.collectors.remove(c), ..self }
    }

    // Instances.

    /// An instance comes into being, with one strong reference.
    pub open spec fn create(self, x: usize, value: T, shared: bool) -> Self {
        Model {
            instances: self.instances.insert(
                x,
                InstanceModel {
                    body: Payload::Instance(value),
                    shared,
                    refs: set![self.tokens],
                    retirement: None,
                },
            ),
            tokens: self.tokens + 1,
            ..self
        }
    }

    /// The instance is given other strong references.
    pub open spec fn with_refs(self, x: usize, refs: Set<nat>) -> Self {
        Model {
            instances: self.instances.insert(x, InstanceModel { refs, ..self.instances[x] }),
            ..self
        }
    }

    /// An instance gets another strong reference.
    pub open spec fn share(self, x: usize) -> Self {
        Model {
            tokens: self.tokens + 1,
            ..self.with_refs(x, self.instances[x].refs.insert(self.tokens))
        }
    }

    /// A strong reference is dropped.
    pub open spec fn unshare(self, x: usize, token: nat) -> Self {
        self.with_refs(x, self.instances[x].refs.remove(token))
    }

    /// An instance that has no strong reference is retired.
    pub open spec fn retire(self, c: usize, x: usize) -> Self {
        Model {
            collectors: self.collectors.insert(c, self.collectors[c].collected(x)),
            instances: self.instances.insert(
                x,
                InstanceModel {
                    retirement: Some(self.retirement_now(c)),
                    ..self.instances[x]
                },
            ),
            tokens: self.tokens + 1,
            ..self
        }
    }

    /// Something that nobody refers to comes into being.
    pub open spec fn put(self, x: usize, body: Payload<T, F>) -> Self {
        Model {
            instances: self.instances.insert(
                x,
                InstanceModel { body, shared: false, refs: Set::empty(), retirement: None },
            ),
            ..self
        }
    }

    /// Something to be destroyed comes into being, and is retired at once.
    pub open spec fn defer(self, c: usize, x: usize, body: Payload<T, F>) -> Self {
        self.put(x, body).retire(c, x)
    }

    /// A list of a collector gives its first item back to the list of recently retired ones.
    pub open spec fn recollect(self, c: usize) -> Self {
        let collector = self.collectors[c];
        self.with(
            c,
            CollectorModel {
                garbage: collector.garbage.skip(1),
                ..collector
            }.collected(collector.garbage[0]),
        )
    }

    /// All the garbage of a collector is given back to the list of recently retired instances.
    pub open spec fn recollect_all(self, c: usize) -> Self
        decreases self.collectors[c].garbage.len(),
    {
        if self.collectors[c].garbage.len() == 0 {
            self
        } else {
            self.recollect(c).recollect_all(c)
        }
    }

    // Destruction.

    /// An upper bound on the ranks of the retirements of all that a collector keeps.
    pub open spec fn rank(self, c: usize) -> nat {
        match self.collectors[c].retirement {
            Some(retirement) => retirement.serial,
            None => self.tokens,
        }
    }

    /// The first item of a list leaves the domain.
    pub open spec fn discard(self, c: usize, bag: Bag) -> Self {
        let collector = self.collectors[c];
        let x = collector.bag(bag)[0];
        Model {
            collectors: self.collectors.insert(
                c,
                collector.with_bag(bag, collector.bag(bag).skip(1)),
            ).remove(x),
            instances: self.instances.remove(x),
            dropped: if self.instances.contains_key(x) {
                self.dropped.push(self.instances[x].body)
            } else {
                self.dropped
            },
            ..self
        }
    }

    /// All items of a list leave the domain one after another. If an item is a collector, all that
    /// it keeps leaves the domain first.
    pub open spec fn drop_bag(self, c: usize, bag: Bag, bound: nat) -> Self
        decreases bound, 0nat, self.collectors[c].bag(bag).len(),
    {
        let list = self.collectors[c].bag(bag);
        if list.len() == 0 {
            self
        } else {
            let emptied = if self.collectors.contains_key(list[0]) && self.rank(list[0]) < bound {
                self.drop_bags(list[0], self.rank(list[0]))
            } else {
                self
            };
            let discarded = emptied.discard(c, bag);
            if discarded.collectors[c].bag(bag).len() < list.len() {
                discarded.drop_bag(c, bag, bound)
            } else {
                discarded
            }
        }
    }

    /// All that a collector keeps leaves the domain.
    pub open spec fn drop_bags(self, c: usize, bound: nat) -> Self
        decreases bound, 1nat, 0nat,
    {
        self.drop_bag(c, Bag::Previous, bound).drop_bag(c, Bag::Current, bound).drop_bag(
            c,
            Bag::Next,
            bound,
        )
    }

    /// All that a collector keeps leaves the domain.
    pub open spec fn clear(self, c: usize) -> Self {
        self.drop_bags(c, self.rank(c))
    }

    /// The first item of a list, and all that it keeps, leaves the domain.
    pub open spec fn drop_first(self, c: usize, bag: Bag) -> Self {
        let x = self.collectors[c].bag(bag)[0];
        if self.collectors.contains_key(x) {
            self.clear(x).discard(c, bag)
        } else {
            self.discard(c, bag)
        }
    }

    /// All the garbage of a collector leaves the domain.
    pub open spec fn drop_garbage(self, c: usize) -> Self {
        self.drop_bag(c, Bag::Garbage, self.rank(c))
    }

    /// A thread acknowledges an epoch change, and reclaims what nobody can read any more.
    pub open spec fn epoch_updated(self, c: usize) -> Self {
        self.rotate(c).drop_garbage(c)
    }

    /// A thread gets a guard.
    pub open spec fn new_guard(self, c: usize, collect_garbage: bool) -> Self {
        if self.collectors[c].num_readers > 0 {
            self.nest(c)
        } else {
            let announced = self.enter(c).announce(c);
            if collect_garbage && announced.collectors[c].announcement
                != self.collectors[c].announcement {
                announced.epoch_updated(c)
            } else {
                announced
            }
        }
    }

    /// Collectors outside the chain, and all that they keep, leave the domain one after another.
    pub open spec fn destroy(self, list: Seq<usize>) -> Self
        decreases list.len(),
    {
        if list.len() == 0 {
            self
        } else {
            self.clear(list[0]).remove_temporary(list[0]).destroy(list.skip(1))
        }
    }

    /// A thread passes through a protected region in a hurry: it gets a guard, accelerates garbage
    /// collection, and drops the guard.
    pub open spec fn round(self, c: usize) -> Self {
        self.new_guard(c, true).accelerate(c).end_guard(c, self.tokens)
    }

    // The chain.

    /// A thread locks the chain to scan it.
    pub open spec fn scan_lock(self, c: usize) -> Self {
        Model {
            tag: Tag::First,
            lock: Lock::Scan(
                ScanModel {
                    scanner: c,
                    known: self.collectors[c].seen,
                    previous: 0,
                    rest: self.chain,
                },
            ),
            ..self
        }
    }

    /// The scan goes past a collector.
    pub open spec fn scan_pass(self) -> Self {
        let scan = self.lock->Scan_0;
        Model {
            lock: Lock::Scan(
                ScanModel { previous: scan.rest[0], rest: scan.rest.skip(1), ..scan },
            ),
            ..self
        }
    }

    /// The scan takes an invalid collector out of the chain, and retires it.
    pub open spec fn scan_unlink(self) -> Self {
        let scan = self.lock->Scan_0;
        let x = scan.rest[0];
        Model {
            chain: self.passed(scan.rest) + scan.rest.skip(1),
            lock: Lock::Scan(ScanModel { rest: scan.rest.skip(1), ..scan }),
            collectors: self.collectors.insert(
                scan.scanner,
                self.collectors[scan.scanner].collected(x),
            ).insert(
                x,
                CollectorModel {
                    retirement: Some(self.retirement_now(scan.scanner)),
                    ..self.collectors[x]
                },
            ),
            tokens: self.tokens + 1,
            ..self
        }
    }

    /// The collector does not keep the thread of `c` from changing the epoch: the thread is in the
    /// same epoch, or it has given up the collector.
    pub open spec fn ready(self, c: usize, x: usize) -> bool {
        ||| x == c
        ||| self.collectors[x].invalid
        ||| self.collectors[x].state() == self.collectors[c].state()
    }

    /// None of the collectors keeps the thread of `c` from changing the epoch.
    pub open spec fn all_ready(self, c: usize, list: Seq<usize>) -> bool {
        forall|i: int| 0 <= i < list.len() ==> self.ready(c, #[trigger] list[i])
    }

    /// The scan gets to the next collector, and the one at hand is ready.
    pub open spec fn scan_next(self) -> Self {
        let scan = self.lock->Scan_0;
        let x = scan.rest[0];
        if x != scan.scanner && self.collectors[x].invalid && (scan.previous != 0 || first_of(
            self.chain,
        ) == x) {
            self.scan_unlink()
        } else {
            self.scan_pass()
        }
    }

    /// The scan goes on until it meets a collector that is not ready, or ends in an epoch change.
    pub open spec fn scan_run(self) -> Self
        decreases self.lock->Scan_0.rest.len(),
    {
        let scan = self.lock->Scan_0;
        if scan.rest.len() == 0 {
            self.scan_advance()
        } else if self.ready(scan.scanner, scan.rest[0]) {
            self.scan_next().scan_run()
        } else {
            self
        }
    }

    /// A thread scans the chain, unless it is locked.
    pub open spec fn scan(self, c: usize) -> Self {
        if self.lock is Free {
            self.scan_lock(c).scan_run().unlock()
        } else {
            self
        }
    }

    /// It is time for the thread to scan the chain.
    pub open spec fn scan_due(self, c: usize) -> bool {
        &&& self.collectors[c].next_epoch_update == 0
        &&& self.collectors[c].has_garbage || self.tag == Tag::Second
    }

    /// A guard is dropped. If it is the last one of its thread, the thread scans the chain if it
    /// is time to.
    pub open spec fn end_guard(self, c: usize, guard: nat) -> Self {
        let left = self.leave(c, guard);
        if left.collectors[c].num_readers > 0 {
            left
        } else if left.scan_due(c) {
            left.scan(c).retreat(c)
        } else {
            left.retreat(c)
        }
    }

    /// The scan ends in an epoch change.
    pub open spec fn scan_advance(self) -> Self {
        Model { epoch: self.lock->Scan_0.known + 1, ..self }
    }

    /// A thread locks the chain to clear it.
    pub open spec fn clear_lock(self) -> Self {
        Model {
            tag: Tag::First,
            lock: Lock::Clear(
                ClearModel {
                    head: first_of(self.chain),
                    walked: Seq::empty(),
                    rest: self.chain,
                },
            ),
            ..self
        }
    }

    /// The clearing thread goes past an invalid collector.
    pub open spec fn clear_pass(self) -> Self {
        let clear = self.lock->Clear_0;
        Model {
            lock: Lock::Clear(
                ClearModel {
                    walked: clear.walked.push(clear.rest[0]),
                    rest: clear.rest.skip(1),
                    ..clear
                },
            ),
            ..self
        }
    }

    /// The clearing thread goes on until it meets a collector that is valid.
    pub open spec fn clear_run(self) -> Self
        decreases self.lock->Clear_0.rest.len(),
    {
        let clear = self.lock->Clear_0;
        if clear.rest.len() > 0 && self.collectors[clear.rest[0]].invalid {
            self.clear_pass().clear_run()
        } else {
            self
        }
    }

    /// The clearing thread takes all the collectors out of the chain.
    pub open spec fn clear_unlink(self) -> Self {
        Model {
            chain: Seq::empty(),
            lock: Lock::Clear(
                ClearModel { head: 0, walked: Seq::empty(), rest: Seq::empty() },
            ),
            ..self
        }
    }

    /// The clearing thread takes all the collectors out of the chain, and destroys them.
    pub open spec fn clear_commit(self) -> Self {
        self.clear_unlink().destroy(self.lock->Clear_0.walked)
    }

    /// All the collectors of the chain are invalid.
    pub open spec fn all_invalid(self, list: Seq<usize>) -> bool {
        forall|i: int| 0 <= i < list.len() ==> self.collectors[#[trigger] list[i]].invalid
    }

    /// A thread clears the chain if all its collectors are invalid, unless it is locked.
    pub open spec fn clear_chain(self) -> Self {
        if self.lock is Free {
            let walked = self.clear_lock().clear_run();
            if walked.lock->Clear_0.rest.len() == 0 {
                walked.clear_commit().unlock()
            } else {
                walked.unlock()
            }
        } else {
            self
        }
    }

    /// A terminating thread gives up its collector. A temporary one takes its place.
    pub open spec fn begin_exit(self, thread: int, temporary: usize) -> Self {
        let c = self.locals[thread];
        let given_up = if c != 0 {
            self.set_local(thread, 0).invalidate(c)
        } else {
            self
        };
        given_up.add_temporary(temporary).set_local(thread, temporary)
    }

    /// The temporary collector of a terminating thread, and all that it keeps, leaves the domain.
    pub open spec fn finish_exit(self, thread: int) -> Self {
        let c = self.locals[thread];
        self.clear(c).set_local(thread, 0).remove_temporary(c)
    }

    /// A thread terminates.
    pub open spec fn exit(self, thread: int, temporary: usize) -> Self {
        let begun = self.begin_exit(thread, temporary);
        let cleared = if begun.lock is Free && begun.all_invalid(begun.chain) {
            begun.clear_chain()
        } else {
            begun.clear_chain().mark()
        };
        cleared.finish_exit(thread)
    }

    /// The chain is unlocked; a mark set in the meantime stays.
    pub open spec fn unlock(self) -> Self {
        Model {
            tag: if self.tag == Tag::Both {
                Tag::Second
            } else {
                Tag::Neither
            },
            lock: Lock::Free,
            ..self
        }
    }

    /// A thread makes its next scan urgent, and that of others.
    pub open spec fn accelerate(self, c: usize) -> Self {
        self.mark().hasten(c)
    }

    /// A thread without guards hands all that it keeps over to others.
    pub open spec fn pass_garbage(self, thread: int) -> Self {
        let c = self.locals[thread];
        if c != 0 && self.collectors[c].num_readers == 0 && self.collectors[c].has_garbage {
            self.set_local(thread, 0).invalidate(c).mark()
        } else {
            self
        }
    }

    /// The chain is marked to be scanned soon.
    pub open spec fn mark(self) -> Self {
        Model {
            tag: if self.tag == Tag::First || self.tag == Tag::Both {
                Tag::Both
            } else {
                Tag::Second
            },
            ..self
        }
    }
}

} // verus!

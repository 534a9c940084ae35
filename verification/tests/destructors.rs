use sdd::anchor::CollectorAnchor;
use sdd::collector::Collector;
use sdd::destructor::{Destructor, Log, Outbox};
use sdd::model::Payload;
use sdd::{prepare, suspend, AtomicShared, Domain, Guard, Owned, Tag};
use std::sync::atomic::Ordering::Relaxed;

/// An instance with a destructor that retires so many others, or fails.
enum Node {
    Leaf(usize),
    Branch(usize, Vec<Node>),
    Faulty(usize),
}

type Memory = Domain<Node, fn()>;

/// Keeps a record of the instances that have been dropped.
struct Record(Vec<usize>);

impl Destructor<Node, fn()> for Record {
    fn log(&self) -> Log<Node, fn()> {
        unreachable!()
    }

    fn destroy(
        &mut self,
        domain: &mut Memory,
        thread: usize,
        payload: Payload<Node, fn()>,
    ) -> bool {
        match payload {
            Payload::Instance(Node::Leaf(value)) => self.0.push(value),
            Payload::Instance(Node::Branch(value, nodes)) => {
                self.0.push(value);
                for node in nodes {
                    retire(domain, thread, node);
                }
            }
            Payload::Instance(Node::Faulty(value)) => {
                self.0.push(value);
                return false;
            }
            Payload::Closure(mut closure) => closure.drop(),
        }
        true
    }
}

fn retire(domain: &mut Memory, thread: usize, node: Node) {
    let owned = Owned::new(domain, node);
    owned.drop(domain, thread);
}

fn advance(domain: &mut Memory, thread: usize, record: &mut Record) {
    let guard = Guard::new(domain, thread, record).ok().unwrap();
    guard.accelerate(domain);
    guard.drop(domain);
}

fn numbers(payloads: Vec<Payload<Node, fn()>>) -> Vec<usize> {
    payloads
        .into_iter()
        .map(|payload| match payload {
            Payload::Instance(Node::Leaf(value)) => value,
            _ => unreachable!(),
        })
        .collect()
}

#[test]
fn destructors_are_called_in_order() {
    let mut domain: Memory = Domain::new();
    let thread = domain.attach();
    assert!(prepare(&mut domain, thread, &mut Record(vec![])).is_ok());
    let mut record = Record(vec![]);
    let payloads = vec![
        Payload::Instance(Node::Leaf(1)),
        Payload::Instance(Node::Leaf(2)),
    ];
    assert!(domain.hand_over(thread, payloads, &mut record).is_none());
    assert_eq!(record.0, vec![1, 2]);

    let payloads = vec![
        Payload::Instance(Node::Leaf(3)),
        Payload::Instance(Node::Faulty(4)),
        Payload::Instance(Node::Leaf(5)),
        Payload::Instance(Node::Leaf(6)),
    ];
    let rest = domain.hand_over(thread, payloads, &mut record).unwrap();
    assert_eq!(record.0, vec![1, 2, 3, 4]);
    assert_eq!(numbers(rest), vec![5, 6]);
}

#[test]
fn destructor_retires_more() {
    let mut domain: Memory = Domain::new();
    let thread = domain.attach();
    let mut record = Record(vec![]);
    retire(&mut domain, thread, Node::Leaf(1));
    let nodes = vec![Node::Leaf(4), Node::Leaf(5)];
    retire(&mut domain, thread, Node::Branch(2, nodes));
    retire(&mut domain, thread, Node::Leaf(3));
    for _ in 0..3 {
        advance(&mut domain, thread, &mut record);
        assert!(record.0.is_empty());
    }
    let guard = Guard::new(&mut domain, thread, &mut record).ok().unwrap();
    assert_eq!(record.0, vec![3, 2, 1]);
    let c = guard.collector_ptr;
    // What the destructor has retired is among the most recent instances.
    assert!(domain.collector(c).has_garbage);
    assert!(domain.collector(c).current_instance_link.is_some());
    assert!(domain.collector(c).previous_instance_link.is_none());
    assert!(domain.collector(c).next_instance_link.is_none());
    assert_eq!(domain.collector(c).num_readers, 1);
    guard.accelerate(&mut domain);
    guard.drop(&mut domain);
    for _ in 0..3 {
        assert_eq!(record.0, vec![3, 2, 1]);
        advance(&mut domain, thread, &mut record);
    }
    assert_eq!(record.0, vec![3, 2, 1, 5, 4]);
    assert!(domain.dropped.is_empty());
}

#[test]
fn failing_destructor_takes_guard_back() {
    let mut domain: Memory = Domain::new();
    let thread = domain.attach();
    let mut record = Record(vec![]);
    retire(&mut domain, thread, Node::Leaf(1));
    retire(&mut domain, thread, Node::Leaf(2));
    retire(&mut domain, thread, Node::Faulty(3));
    retire(&mut domain, thread, Node::Branch(4, vec![Node::Leaf(5)]));
    for _ in 0..3 {
        advance(&mut domain, thread, &mut record);
    }
    let c = domain.locals[thread];
    let failed = Guard::new(&mut domain, thread, &mut record);
    assert!(matches!(failed, Err(rest) if rest.is_empty()));
    assert_eq!(record.0, vec![4, 3]);
    assert_eq!(domain.locals[thread], c);
    assert_eq!(domain.collector(c).num_readers, 0);
    assert_eq!(domain.collector(c).state & Collector::INACTIVE, Collector::INACTIVE);
    assert!(domain.collector(c).garbage_link.is_none());
    assert!(domain.collector(c).has_garbage);
    // The rest has been retired again.
    for _ in 0..3 {
        advance(&mut domain, thread, &mut record);
        assert_eq!(record.0, vec![4, 3]);
    }
    advance(&mut domain, thread, &mut record);
    assert_eq!(record.0, vec![4, 3, 1, 2, 5]);
}

#[test]
fn failing_destructor_gives_rest_of_collector_back() {
    let mut domain: Memory = Domain::new();
    let main = domain.attach();
    let gone = domain.attach();
    let mut record = Record(vec![]);
    for node in [Node::Leaf(1), Node::Leaf(2), Node::Faulty(3), Node::Leaf(4)] {
        retire(&mut domain, gone, node);
    }
    assert!(suspend(&mut domain, gone));
    for _ in 0..3 {
        advance(&mut domain, main, &mut record);
    }
    let rest = match prepare(&mut domain, main, &mut record) {
        Ok(()) => unreachable!(),
        Err(rest) => rest,
    };
    assert_eq!(record.0, vec![4, 3]);
    assert_eq!(numbers(rest), vec![2, 1]);
    assert_eq!(domain.collector(domain.locals[main]).num_readers, 0);
    assert!(!domain.collector(domain.locals[main]).has_garbage);
}

#[test]
fn clone_fails_with_destructor() {
    let mut domain: Memory = Domain::new();
    let thread = domain.attach();
    let mut record = Record(vec![]);
    let atomic_shared: AtomicShared<Node> = AtomicShared::new(&mut domain, Node::Leaf(1));
    retire(&mut domain, thread, Node::Faulty(2));
    for _ in 0..3 {
        advance(&mut domain, thread, &mut record);
    }
    assert!(atomic_shared.clone_unguarded(&mut domain, thread, &mut record).is_err());
    let clone = atomic_shared.clone_unguarded(&mut domain, thread, &mut record).ok().unwrap();
    assert_eq!(clone.tag(Relaxed), Tag::Neither);
    assert!(!clone.is_null(Relaxed));
    assert_eq!(record.0, vec![2]);
}

#[test]
fn termination_leaves_nothing_behind() {
    let mut domain: Memory = Domain::new();
    let thread = domain.attach();
    let mut record = Record(vec![]);
    let inner = Node::Branch(3, vec![Node::Leaf(4), Node::Leaf(5)]);
    retire(&mut domain, thread, Node::Branch(1, vec![Node::Leaf(2), inner]));
    assert!(CollectorAnchor::drop(&mut domain, thread, &mut record).is_ok());
    assert_eq!(record.0, vec![1, 3, 2, 5, 4]);
    assert_eq!(domain.locals[thread], 0);
    assert_eq!(domain.root.chain_head, 0);
    assert!(domain.dropped.is_empty());
}

#[test]
fn failing_destructor_stops_termination() {
    let mut domain: Memory = Domain::new();
    let thread = domain.attach();
    let mut record = Record(vec![]);
    let nodes = vec![Node::Leaf(2), Node::Faulty(3), Node::Leaf(4)];
    retire(&mut domain, thread, Node::Branch(1, nodes));
    let rest = match CollectorAnchor::drop(&mut domain, thread, &mut record) {
        Ok(_) => unreachable!(),
        Err(rest) => rest,
    };
    assert_eq!(record.0, vec![1, 4, 3]);
    assert_eq!(numbers(rest), vec![2]);
    assert_ne!(domain.locals[thread], 0);
}

#[test]
fn outbox_keeps_payloads() {
    let mut domain: Memory = Domain::new();
    let thread = domain.attach();
    let mut outbox = Outbox::new();
    retire(&mut domain, thread, Node::Leaf(1));
    retire(&mut domain, thread, Node::Leaf(2));
    assert!(CollectorAnchor::drop(&mut domain, thread, &mut outbox).is_ok());
    assert_eq!(numbers(outbox.payloads), vec![2, 1]);
}

#[test]
fn witnessed_epochs() {
    let mut domain: Memory = Domain::new();
    let thread = domain.attach();
    let mut record = Record(vec![]);
    let guard = Guard::new(&mut domain, thread, &mut record).ok().unwrap();
    let witnessed = guard.epoch(&domain);
    retire(&mut domain, thread, Node::Leaf(1));
    guard.drop(&mut domain);
    let second = witnessed.next();
    let third = second.next();
    let mut guards = 0;
    // No guard is accelerated.
    loop {
        let guard = Guard::new(&mut domain, thread, &mut record).ok().unwrap();
        let epoch = guard.epoch(&domain);
        if ![witnessed, second, third].contains(&epoch) {
            assert_eq!(epoch, witnessed.prev());
            assert_eq!(record.0, vec![1]);
            guard.drop(&mut domain);
            break;
        }
        assert!(record.0.is_empty());
        guard.drop(&mut domain);
        guards += 1;
        assert!(guards < 1000);
    }
}

#[test]
fn witnessed_epochs_without_guard() {
    let mut domain: Memory = Domain::new();
    let thread = domain.attach();
    let mut record = Record(vec![]);
    let owned = Owned::new(&mut domain, Node::Leaf(1));
    let guard = Guard::new(&mut domain, thread, &mut record).ok().unwrap();
    let witnessed = guard.epoch(&domain);
    guard.drop(&mut domain);

    // There is no guard when the instance is dropped.
    owned.drop(&mut domain, thread);
    let epoch = loop {
        let guard = Guard::new(&mut domain, thread, &mut record).ok().unwrap();
        let epoch = guard.epoch(&domain);
        guard.drop(&mut domain);
        if epoch != witnessed && epoch != witnessed.next() && epoch != witnessed.next().next() {
            break epoch;
        }
        assert!(record.0.is_empty());
    };
    assert_eq!(epoch, witnessed.prev());
    assert_eq!(record.0, vec![1]);
}

#[test]
fn infallible_destructors_leave_guard() {
    let mut domain: Memory = Domain::new();
    let thread = domain.attach();
    let mut record = Record(vec![]);
    assert!(prepare(&mut domain, thread, &mut record).is_ok());
    let collector = domain.locals[thread];
    // Every instance owns the next one.
    let mut node = Node::Leaf(0);
    for value in 1..20 {
        node = Node::Branch(value, vec![node]);
    }
    retire(&mut domain, thread, node);
    for _ in 0..100 {
        let guard = Guard::new(&mut domain, thread, &mut record).ok().unwrap();
        assert_eq!(guard.collector_ptr, collector);
        let kept = domain.collector(collector);
        assert_eq!(
            kept.has_garbage,
            kept.previous_instance_link.is_some()
                || kept.current_instance_link.is_some()
                || kept.next_instance_link.is_some()
        );
        guard.accelerate(&mut domain);
        guard.drop(&mut domain);
    }
    assert_eq!(record.0, (0..20).rev().collect::<Vec<usize>>());
}

#[test]
fn scan_keeps_order() {
    let mut domain: Memory = Domain::new();
    let threads: Vec<usize> = (0..5).map(|_| domain.attach()).collect();
    let mut record = Record(vec![]);
    let collectors: Vec<usize> = threads
        .iter()
        .map(|thread| Collector::current(&mut domain, *thread))
        .collect();
    for thread in [0, 3] {
        retire(&mut domain, threads[thread], Node::Leaf(thread));
        assert!(suspend(&mut domain, threads[thread]));
    }
    let guards: Vec<Guard> = [1, 2, 4]
        .iter()
        .map(|thread| Guard::new(&mut domain, threads[*thread], &mut record).ok().unwrap())
        .collect();
    let mut guards = guards.into_iter();
    let guard = guards.next().unwrap();
    assert!(Collector::leave(&mut domain, guard));
    assert!(Collector::scan(&mut domain, collectors[1]));
    // The chain holds the collectors that are left, the youngest one first.
    assert_eq!(Tag::unset_tag(domain.root.chain_head), collectors[4]);
    assert_eq!(domain.collector(collectors[4]).next_link, collectors[2]);
    assert_eq!(domain.collector(collectors[2]).next_link, collectors[1]);
    assert_eq!(domain.collector(collectors[1]).next_link, 0);
    // Of the others, the oldest one was the last to be retired.
    let link = domain.collector(collectors[1]).current_instance_link;
    assert_eq!(link.unwrap().data, collectors[0]);
    Collector::retreat(&mut domain, collectors[1]);
    for guard in guards {
        guard.drop(&mut domain);
    }
}

#[test]
fn prepared_thread_keeps_collector() {
    let mut domain: Memory = Domain::new();
    let main = domain.attach();
    let other = domain.attach();
    let mut record = Record(vec![]);
    assert!(prepare(&mut domain, main, &mut record).is_ok());
    let collector = domain.locals[main];
    for value in 0..10 {
        retire(&mut domain, other, Node::Leaf(value));
        advance(&mut domain, other, &mut record);
        assert!(suspend(&mut domain, other));
        let guard = Guard::new(&mut domain, main, &mut record).ok().unwrap();
        assert_eq!(guard.collector_ptr, collector);
        guard.accelerate(&mut domain);
        guard.drop(&mut domain);
        assert!(CollectorAnchor::drop(&mut domain, other, &mut record).is_ok());
    }
    assert_eq!(domain.locals[main], collector);
}

/// Gets a guard for every instance that is dropped, and reads under it.
struct Reader(AtomicShared<Node>, Vec<usize>);

impl Destructor<Node, fn()> for Reader {
    fn log(&self) -> Log<Node, fn()> {
        unreachable!()
    }

    fn destroy(
        &mut self,
        domain: &mut Memory,
        thread: usize,
        _: Payload<Node, fn()>,
    ) -> bool {
        let guard = Guard::new(domain, thread, &mut Outbox::new()).ok().unwrap();
        assert_eq!(domain.collector(guard.collector_ptr).num_readers, 2);
        if let Some(Node::Leaf(value)) = self.0.load(Relaxed, &guard).as_ref(domain) {
            self.1.push(*value);
        }
        assert!(!suspend(domain, thread));
        guard.drop(domain);
        true
    }
}

#[test]
fn destructor_has_guard() {
    let mut domain: Memory = Domain::new();
    let thread = domain.attach();
    let mut record = Record(vec![]);
    let atomic_shared: AtomicShared<Node> = AtomicShared::new(&mut domain, Node::Leaf(7));
    for value in 0..3 {
        retire(&mut domain, thread, Node::Leaf(value));
    }
    for _ in 0..3 {
        advance(&mut domain, thread, &mut record);
    }
    let mut reader = Reader(atomic_shared, vec![]);
    let guard = Guard::new(&mut domain, thread, &mut reader).ok().unwrap();
    assert_eq!(reader.1, vec![7, 7, 7]);
    assert_eq!(domain.collector(guard.collector_ptr).num_readers, 1);
    guard.drop(&mut domain);
    assert!(record.0.is_empty());
}

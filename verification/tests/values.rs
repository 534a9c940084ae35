use sdd::collectible::{Collectible, DeferredClosure, InstancePtr, Link};
use sdd::heap::{Body, Heap};
use sdd::ref_counted::RefCounted;
use sdd::{Epoch, Tag};
use std::cell::Cell;
use std::ops::Not;
use std::rc::Rc;
use std::sync::atomic::Ordering::{Acquire, Relaxed};

#[test]
fn epoch_next_generation() {
    let initial = Epoch::default();
    let next_generation = initial.next_generation();
    assert_eq!(next_generation, initial.next().next().next());
    assert_eq!(u8::from(next_generation), 3);
}

#[test]
fn epoch_next() {
    let initial = Epoch::default();
    let next = initial.next();
    assert!(initial < next);
    let next_next = next.next();
    assert!(next < next_next);
    assert_eq!(u8::from(next_next), 2);
    assert_eq!(next_next.next().next(), initial);
}

#[test]
fn epoch_prev() {
    let initial = Epoch::default();
    let prev = initial.prev();
    assert!(initial < prev);
    let prev_prev = prev.prev();
    assert!(prev_prev < prev);
    assert_eq!(u8::from(prev_prev), 2);
    for value in 0..4 {
        let epoch = Epoch::from(value);
        assert_eq!(epoch.next().prev(), epoch);
        assert_eq!(epoch.prev().next(), epoch);
    }
}

#[test]
fn epoch_out_of_range_is_brought_back() {
    assert_eq!(Epoch::from(7).next(), Epoch::from(0));
    assert_eq!(Epoch::from(252).prev(), Epoch::from(3));
    assert_eq!(Epoch::from(254).next(), Epoch::from(3));
}

#[test]
fn tag_in_pointer() {
    let tags = [Tag::Neither, Tag::First, Tag::Second, Tag::Both];
    for (bits, tag) in tags.into_iter().enumerate() {
        assert_eq!(tag.bits(), bits);
        assert_eq!(Tag::from_bits(bits), tag);
        let tagged = Tag::update_tag(0x1000, tag);
        assert_eq!(tagged, 0x1000 + bits);
        assert_eq!(Tag::into_tag(tagged), tag);
        assert_eq!(Tag::unset_tag(tagged), 0x1000);
        for other in tags {
            assert_eq!(Tag::update_tag(tagged, other), Tag::update_tag(0x1000, other));
        }
        assert_eq!(tag.not(), !bits);
    }
    assert_eq!(Tag::First + Tag::Second, Tag::Both);
    assert_eq!(Tag::Neither + Tag::Second, Tag::Second);
    assert_eq!(Tag::unset_tag(usize::MAX), usize::MAX - 3);
}

#[test]
fn link_round_trip() {
    let mut link = Link::default();
    assert_eq!(link.next_ptr(), None);
    let ptr = InstancePtr { data: 0x40, vtable: 2 };
    link.set_next_ptr(Some(ptr));
    assert_eq!(link.next_ptr(), Some(ptr));
    assert_eq!(*link.ref_cnt(), 0x40);
    link.set_next_ptr(None);
    assert_eq!(link.next_ptr(), None);
    assert_eq!(*Link::new_shared().ref_cnt(), 1);
    assert_eq!(*Link::new_unique().ref_cnt(), 0);
}

#[test]
fn deferred_closure_executes_once() {
    let count = Rc::new(Cell::new(0));
    let counter = count.clone();
    let mut closure = DeferredClosure::new(move || counter.set(counter.get() + 1));
    let ptr = InstancePtr { data: 8, vtable: 1 };
    closure.set_next_ptr(Some(ptr));
    assert_eq!(closure.next_ptr(), Some(ptr));
    assert_eq!(count.get(), 0);
    closure.drop();
    assert_eq!(count.get(), 1);
    closure.drop();
    assert_eq!(count.get(), 1);
}

#[test]
fn ref_counted_shared() {
    let mut counted = RefCounted::new_shared(5);
    assert_eq!(*counted.ref_cnt(), 1);
    assert_eq!(*counted.deref(), 5);
    *counted.get_mut_shared().unwrap() = 6;
    assert!(counted.try_add_ref(Acquire));
    assert_eq!(*counted.ref_cnt(), 3);
    assert!(counted.get_mut_shared().is_none());
    counted.add_ref();
    assert_eq!(*counted.ref_cnt(), 5);
    assert!(!counted.drop_ref());
    assert!(!counted.drop_ref());
    assert!(counted.drop_ref());
    assert_eq!(*counted.ref_cnt(), 0);
    assert!(!counted.try_add_ref(Relaxed));
    assert!(!counted.drop_ref());
    assert_eq!(*counted.deref(), 6);
}

#[test]
fn ref_counted_unique() {
    let mut counted = RefCounted::new_unique(5);
    assert_eq!(*counted.ref_cnt(), 0);
    *counted.get_mut_unique() = 7;
    assert_eq!(*counted.deref(), 7);
    assert!(counted.get_mut_shared().is_none());
    assert!(!counted.try_add_ref(Relaxed));
    counted.set_next_ptr(Some(InstancePtr { data: 0x44, vtable: 3 }));
    assert!(!counted.try_add_ref(Relaxed));
    assert_eq!(counted.next_ptr(), Some(InstancePtr { data: 0x44, vtable: 3 }));
    assert_eq!(RefCounted::<usize>::inst_ptr(0, 16), 0);
    assert_eq!(RefCounted::<usize>::inst_ptr(0x44, 16), 0x54);
}

#[test]
fn add_ref_wraps_around() {
    let mut counted = RefCounted::new_shared(());
    counted.next_or_refcnt.ref_cnt = usize::MAX;
    counted.add_ref();
    assert_eq!(*counted.ref_cnt(), 1);
}

#[test]
fn heap_addresses() {
    let mut heap: Heap<usize, fn()> = Heap::new();
    assert!(heap.has_room());
    let first = heap.place(Body::Instance(RefCounted::new_unique(1)));
    let second = heap.place(Body::Instance(RefCounted::new_shared(2)));
    assert_ne!(first, 0);
    assert_ne!(first, second);
    assert_eq!(first % 4, 0);
    assert_eq!(second % 4, 0);
    assert_eq!(heap.get(first).vtable(), heap.get(second).vtable());
    heap.get_mut(second).set_next_ptr(Some(InstancePtr { data: first, vtable: 1 }));
    assert_eq!(heap.get(second).next_ptr(), Some(InstancePtr { data: first, vtable: 1 }));
    match heap.take(first) {
        Body::Instance(counted) => assert_eq!(*counted.deref(), 1),
        _ => unreachable!(),
    }
    let third = heap.place(Body::Closure(DeferredClosure::new(|| ())));
    assert_eq!(third, first);
    assert_ne!(heap.get(third).vtable(), heap.get(second).vtable());
}

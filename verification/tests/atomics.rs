use sdd::destructor::Outbox;
use sdd::{Atomic, AtomicOwned, AtomicShared, Domain, Guard, Owned, Ptr, Shared, Tag};
use std::sync::atomic::Ordering::{AcqRel, Acquire, Relaxed, Release, SeqCst};

type Memory = Domain<usize, fn()>;

fn new_guard(domain: &mut Memory, thread: usize) -> Guard {
    Guard::new(domain, thread, &mut Outbox::new()).ok().unwrap()
}

fn memory() -> (Memory, usize) {
    let mut domain = Domain::new();
    let thread = domain.attach();
    (domain, thread)
}

#[test]
fn atomic_new() {
    let (mut domain, _) = memory();
    let atomic_owned: AtomicOwned<usize> = Atomic::new(&mut domain, 10);
    let atomic_shared: AtomicShared<usize> = Atomic::new(&mut domain, 11);
    assert!(!atomic_owned.is_null(Relaxed));
    assert!(!atomic_shared.is_null(Acquire));
    assert_eq!(atomic_owned.tag(SeqCst), Tag::Neither);
    assert_eq!(*atomic_owned.into_owned(Relaxed).unwrap().deref(&domain), 10);
    assert_eq!(*atomic_shared.into_shared(Relaxed).unwrap().deref(&domain), 11);
}

#[test]
fn atomic_null() {
    let atomic_owned: AtomicOwned<usize> = AtomicOwned::null();
    let atomic_shared: AtomicShared<usize> = AtomicShared::null();
    assert!(atomic_owned.is_null(Relaxed));
    assert!(atomic_shared.is_null(Relaxed));
    assert_eq!(atomic_owned.tag(Relaxed), Tag::Neither);
    assert_eq!(atomic_shared.tag(Relaxed), Tag::Neither);
    assert!(atomic_owned.into_owned(Relaxed).is_none());
    assert!(atomic_shared.into_shared(Relaxed).is_none());
}

#[test]
fn atomic_tagged_null_is_null() {
    let mut atomic_owned: AtomicOwned<usize> = AtomicOwned::null();
    assert!(atomic_owned.update_tag_if(
        Tag::Both,
        |p: Ptr<usize>| p.tag() == Tag::Neither,
        Relaxed,
        Relaxed
    ));
    assert!(atomic_owned.is_null(Relaxed));
    assert_eq!(atomic_owned.tag(Relaxed), Tag::Both);
    let mut atomic_shared: AtomicShared<usize> = AtomicShared::null();
    assert!(atomic_shared.update_tag_if(
        Tag::Both,
        |p: Ptr<usize>| p.tag() == Tag::Neither,
        AcqRel,
        Acquire
    ));
    assert!(atomic_shared.is_null(Relaxed));
    assert_eq!(atomic_shared.tag(Relaxed), Tag::Both);
    assert!(!atomic_shared.update_tag_if(
        Tag::First,
        |p: Ptr<usize>| p.tag() == Tag::Neither,
        Release,
        Relaxed
    ));
    assert_eq!(atomic_shared.tag(Relaxed), Tag::Both);
}

#[test]
fn atomic_load() {
    let (mut domain, thread) = memory();
    let atomic_owned: AtomicOwned<usize> = AtomicOwned::new(&mut domain, 11);
    let atomic_shared: AtomicShared<usize> = AtomicShared::new(&mut domain, 12);
    let guard = new_guard(&mut domain, thread);
    let ptr = atomic_owned.load(Relaxed, &guard);
    assert_eq!(*ptr.as_ref(&domain).unwrap(), 11);
    assert!(!ptr.is_null());
    let ptr = atomic_shared.load(Relaxed, &guard);
    assert_eq!(*ptr.as_ref(&domain).unwrap(), 12);
    let null: AtomicOwned<usize> = AtomicOwned::null();
    assert!(null.load(Relaxed, &guard).as_ref(&domain).is_none());
}

#[test]
fn owned_swap() {
    let (mut domain, _) = memory();
    let mut atomic_owned: AtomicOwned<usize> = AtomicOwned::new(&mut domain, 14);
    let new = Owned::new(&mut domain, 15);
    let (old, tag) = atomic_owned.swap((Some(new), Tag::Second), Relaxed);
    assert_eq!(tag, Tag::Neither);
    assert_eq!(*old.unwrap().deref(&domain), 14);
    let (old, tag) = atomic_owned.swap((None, Tag::First), Relaxed);
    assert_eq!(tag, Tag::Second);
    assert_eq!(*old.unwrap().deref(&domain), 15);
    let (old, tag) = atomic_owned.swap((None, Tag::Neither), Relaxed);
    assert_eq!(tag, Tag::First);
    assert!(old.is_none());
}

#[test]
fn shared_swap() {
    let (mut domain, _) = memory();
    let mut atomic_shared: AtomicShared<usize> = AtomicShared::new(&mut domain, 14);
    let new = Shared::new(&mut domain, 15);
    let (old, tag) = atomic_shared.swap((Some(new), Tag::Second), Relaxed);
    assert_eq!(tag, Tag::Neither);
    assert_eq!(*old.unwrap().deref(&domain), 14);
    let (old, tag) = atomic_shared.swap((None, Tag::First), Relaxed);
    assert_eq!(tag, Tag::Second);
    assert_eq!(*old.unwrap().deref(&domain), 15);
    let (old, tag) = atomic_shared.swap((None, Tag::Neither), Relaxed);
    assert_eq!(tag, Tag::First);
    assert!(old.is_none());
}

#[test]
fn owned_compare_exchange() {
    let (mut domain, thread) = memory();
    let mut atomic_owned: AtomicOwned<usize> = AtomicOwned::new(&mut domain, 17);
    let guard = new_guard(&mut domain, thread);
    let mut ptr = atomic_owned.load(Relaxed, &guard);
    assert_eq!(*ptr.as_ref(&domain).unwrap(), 17);

    atomic_owned.update_tag_if(Tag::Both, |_: Ptr<usize>| true, Relaxed, Relaxed);
    let new = Owned::new(&mut domain, 18);
    let (given, actual) = atomic_owned
        .compare_exchange(ptr, (Some(new), Tag::First), Relaxed, Relaxed, &guard)
        .err()
        .unwrap();
    assert_eq!(actual.tag(), Tag::Both);
    assert_eq!(*actual.as_ref(&domain).unwrap(), 17);
    let given = given.unwrap();
    assert_eq!(*given.deref(&domain), 18);

    assert_eq!(ptr.set_tag(Tag::Both), Tag::Neither);
    let (old, updated) = atomic_owned
        .compare_exchange(ptr, (Some(given), Tag::First), Relaxed, Relaxed, &guard)
        .ok()
        .unwrap();
    let old = old.unwrap();
    assert_eq!(*old.deref(&domain), 17);
    assert_eq!(updated.tag(), Tag::First);
    assert_eq!(*updated.as_ref(&domain).unwrap(), 18);
    old.drop(&mut domain, thread);

    let new = Owned::new(&mut domain, 19);
    assert!(atomic_owned
        .compare_exchange(ptr, (Some(new), Tag::Neither), Relaxed, Relaxed, &guard)
        .is_err());
    assert_eq!(*ptr.as_ref(&domain).unwrap(), 17);
}

#[test]
fn shared_compare_exchange() {
    let (mut domain, thread) = memory();
    let mut atomic_shared: AtomicShared<usize> = AtomicShared::new(&mut domain, 17);
    let guard = new_guard(&mut domain, thread);
    let mut ptr = atomic_shared.load(Relaxed, &guard);
    assert_eq!(*ptr.as_ref(&domain).unwrap(), 17);

    atomic_shared.update_tag_if(Tag::Both, |_: Ptr<usize>| true, Relaxed, Relaxed);
    let new = Shared::new(&mut domain, 18);
    let (given, actual) = atomic_shared
        .compare_exchange(ptr, (Some(new), Tag::First), Relaxed, Relaxed, &guard)
        .err()
        .unwrap();
    assert_eq!(actual.tag(), Tag::Both);
    let given = given.unwrap();
    assert_eq!(*given.deref(&domain), 18);

    ptr.set_tag(Tag::Both);
    let old = atomic_shared
        .compare_exchange(ptr, (Some(given), Tag::First), Relaxed, Relaxed, &guard)
        .ok()
        .unwrap()
        .0
        .unwrap();
    assert_eq!(*old.deref(&domain), 17);
    old.drop(&mut domain, thread);

    let new = Shared::new(&mut domain, 19);
    assert!(atomic_shared
        .compare_exchange(ptr, (Some(new), Tag::Neither), Relaxed, Relaxed, &guard)
        .is_err());
    assert_eq!(*ptr.as_ref(&domain).unwrap(), 17);
}

#[test]
fn owned_compare_exchange_weak() {
    let (mut domain, thread) = memory();
    let mut atomic_owned: AtomicOwned<usize> = AtomicOwned::new(&mut domain, 17);
    let guard = new_guard(&mut domain, thread);
    let mut ptr = atomic_owned.load(Relaxed, &guard);
    assert_eq!(*ptr.as_ref(&domain).unwrap(), 17);
    let mut new = Some(Owned::new(&mut domain, 18));
    let mut spurious = true;
    while let Err((given, actual)) = atomic_owned.compare_exchange_weak(
        ptr,
        (new.take(), Tag::First),
        Relaxed,
        Relaxed,
        &guard,
        spurious,
    ) {
        assert!(spurious);
        assert_eq!(*given.as_ref().unwrap().deref(&domain), 18);
        assert_eq!(*actual.as_ref(&domain).unwrap(), 17);
        ptr = actual;
        new = given;
        spurious = false;
    }
    let ptr = atomic_owned.load(Relaxed, &guard);
    assert_eq!(*ptr.as_ref(&domain).unwrap(), 18);
    assert_eq!(ptr.tag(), Tag::First);
}

#[test]
fn shared_compare_exchange_weak() {
    let (mut domain, thread) = memory();
    let mut atomic_shared: AtomicShared<usize> = AtomicShared::new(&mut domain, 17);
    let guard = new_guard(&mut domain, thread);
    let ptr = atomic_shared.load(Relaxed, &guard);
    let new = Shared::new(&mut domain, 18);
    let (given, ptr) = atomic_shared
        .compare_exchange_weak(ptr, (Some(new), Tag::First), Relaxed, Relaxed, &guard, true)
        .err()
        .unwrap();
    assert!(atomic_shared
        .compare_exchange_weak(ptr, (given, Tag::First), Relaxed, Relaxed, &guard, false)
        .is_ok());
    let ptr = atomic_shared.load(Relaxed, &guard);
    assert_eq!(*ptr.as_ref(&domain).unwrap(), 18);
    assert!(atomic_shared
        .compare_exchange_weak(ptr, (None, Tag::Second), Relaxed, Relaxed, &guard, false)
        .is_ok());
    assert!(atomic_shared.is_null(Relaxed));
    assert_eq!(atomic_shared.tag(Relaxed), Tag::Second);
}

#[test]
fn from_and_into() {
    let (mut domain, thread) = memory();
    let owned: Owned<usize> = Owned::new(&mut domain, 10);
    let address = owned.underlying_ptr();
    let atomic_owned: AtomicOwned<usize> = AtomicOwned::from(owned);
    let owned = atomic_owned.into_owned(Relaxed).unwrap();
    assert_eq!(owned.underlying_ptr(), address);
    assert_eq!(*owned.deref(&domain), 10);
    let shared: Shared<usize> = Shared::new(&mut domain, 11);
    let atomic_shared: AtomicShared<usize> = AtomicShared::from(shared);
    let shared = atomic_shared.into_shared(Relaxed).unwrap();
    assert_eq!(*shared.deref(&domain), 11);
    owned.drop(&mut domain, thread);
    shared.drop(&mut domain, thread);
    assert!(domain.take_dropped().is_empty());
}

#[test]
fn shared_clone_includes_tags() {
    let (mut domain, thread) = memory();
    let mut atomic_shared: AtomicShared<usize> = AtomicShared::new(&mut domain, 59);
    let guard = new_guard(&mut domain, thread);
    let clone = atomic_shared.clone(&mut domain, Relaxed, &guard);
    let ptr = clone.load(Relaxed, &guard);
    assert_eq!(*ptr.as_ref(&domain).unwrap(), 59);
    assert_eq!(ptr.tag(), Tag::Neither);
    atomic_shared.update_tag_if(Tag::Second, |_: Ptr<usize>| true, Relaxed, Relaxed);
    let clone = atomic_shared.clone(&mut domain, Relaxed, &guard);
    assert_eq!(clone.tag(Relaxed), Tag::Second);
    assert_eq!(
        clone.load(Relaxed, &guard).as_underlying_ptr(),
        atomic_shared.load(Relaxed, &guard).as_underlying_ptr()
    );
    let mut null: AtomicShared<usize> = AtomicShared::null();
    null.update_tag_if(Tag::First, |_: Ptr<usize>| true, Relaxed, Relaxed);
    let clone = null.clone(&mut domain, Relaxed, &guard);
    assert!(clone.is_null(Relaxed));
    assert_eq!(clone.tag(Relaxed), Tag::First);
    guard.drop(&mut domain);
    let clone = atomic_shared
        .clone_unguarded(&mut domain, thread, &mut Outbox::new())
        .ok()
        .unwrap();
    assert_eq!(clone.tag(Relaxed), Tag::Second);
    let guard = new_guard(&mut domain, thread);
    assert_eq!(*clone.load(Relaxed, &guard).as_ref(&domain).unwrap(), 59);
}

#[test]
fn shared_get_shared() {
    let (mut domain, thread) = memory();
    let atomic_shared: AtomicShared<usize> = AtomicShared::new(&mut domain, 47);
    let guard = new_guard(&mut domain, thread);
    let shared: Shared<usize> = atomic_shared.get_shared(&mut domain, Relaxed, &guard).unwrap();
    assert_eq!(*shared.deref(&domain), 47);
    let null: AtomicShared<usize> = AtomicShared::null();
    assert!(null.get_shared(&mut domain, Relaxed, &guard).is_none());
}

#[test]
fn retired_instance_is_not_revived() {
    let (mut domain, thread) = memory();
    let shared: Shared<usize> = Shared::new(&mut domain, 1);
    let other = shared.duplicate(&mut domain);
    let guard = new_guard(&mut domain, thread);
    let ptr = shared.get_guarded_ptr(&guard);
    assert!(!shared.release(&mut domain, &guard));
    let third = ptr.get_shared(&mut domain).unwrap();
    third.drop(&mut domain, thread);
    assert!(other.release(&mut domain, &guard));
    assert_eq!(*ptr.as_ref(&domain).unwrap(), 1);
    assert!(ptr.get_shared(&mut domain).is_none());
    let next = Shared::new(&mut domain, 2);
    next.release(&mut domain, &guard);
    assert!(ptr.get_shared(&mut domain).is_none());
    let owned = Owned::new(&mut domain, 3);
    assert!(owned.get_guarded_ptr(&guard).get_shared(&mut domain).is_none());
}

#[test]
fn drop_of_atomics() {
    let (mut domain, thread) = memory();
    let guard = new_guard(&mut domain, thread);
    let atomic_owned: AtomicOwned<usize> = AtomicOwned::new(&mut domain, 1);
    let atomic_shared: AtomicShared<usize> = AtomicShared::new(&mut domain, 2);
    let null: AtomicShared<usize> = AtomicShared::null();
    let shared = atomic_shared.get_shared(&mut domain, Relaxed, &guard).unwrap();
    let owned_ptr = atomic_owned.load(Relaxed, &guard);
    let shared_ptr = atomic_shared.load(Relaxed, &guard);
    null.drop(&mut domain, thread);
    atomic_owned.drop(&mut domain, thread);
    assert_eq!(*owned_ptr.as_ref(&domain).unwrap(), 1);
    atomic_shared.drop(&mut domain, thread);
    let again = shared_ptr.get_shared(&mut domain).unwrap();
    again.drop(&mut domain, thread);
    shared.drop(&mut domain, thread);
    assert!(shared_ptr.get_shared(&mut domain).is_none());
    assert_eq!(*shared_ptr.as_ref(&domain).unwrap(), 2);
}

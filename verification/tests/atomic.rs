use epoch_reclaim::atomic::data_with_tag;
use epoch_reclaim::atomic::decompose_data;
use epoch_reclaim::atomic::low_bits;
use epoch_reclaim::atomic::strongest_failure_ordering;
use epoch_reclaim::atomic::aligned;
use epoch_reclaim::atomic::Atomic;
use epoch_reclaim::atomic::CompareAndSetOrdering;
use epoch_reclaim::atomic::Order;
use epoch_reclaim::atomic::Owned;
use epoch_reclaim::atomic::Ptr;
use epoch_reclaim::guard::unprotected;

#[test]
fn valid_tag_i8() {
    Ptr::<i8>::null().with_tag(0);
}

#[test]
fn valid_tag_i64() {
    Ptr::<i64>::null().with_tag(7);
}

#[test]
fn low_bits_follow_the_alignment() {
    assert_eq!(low_bits::<u8>(), 0);
    assert_eq!(low_bits::<u16>(), 1);
    assert_eq!(low_bits::<u32>(), 3);
    assert_eq!(low_bits::<u64>(), std::mem::align_of::<u64>() - 1);
}

#[test]
fn tag_round_trip() {
    let mask = low_bits::<u64>();
    let raw = 0x1000usize;
    for tag in 0..=mask {
        let word = data_with_tag::<u64>(raw, tag);
        assert_eq!(decompose_data::<u64>(word), (raw, tag));
    }
}

#[test]
fn tag_is_cut_to_the_tag_bits() {
    let mask = low_bits::<u32>();
    assert_eq!(mask, 3);
    let word = data_with_tag::<u32>(0x40, 0xff);
    assert_eq!(word, 0x43);
    assert_eq!(decompose_data::<u32>(word), (0x40, 3));
    // The tag bits of the address are replaced, not kept.
    assert_eq!(data_with_tag::<u32>(0x43, 0), 0x40);
}

#[test]
fn alignment_test() {
    assert!(aligned::<u32>(0x40));
    assert!(!aligned::<u32>(0x41));
    assert!(aligned::<u8>(0x41));
    assert!(aligned::<u64>(0));
}

#[test]
fn failure_orderings() {
    assert_eq!(strongest_failure_ordering(Order::Relaxed), Order::Relaxed);
    assert_eq!(strongest_failure_ordering(Order::Release), Order::Relaxed);
    assert_eq!(strongest_failure_ordering(Order::Acquire), Order::Acquire);
    assert_eq!(strongest_failure_ordering(Order::AcqRel), Order::Acquire);
    assert_eq!(strongest_failure_ordering(Order::SeqCst), Order::SeqCst);
}

#[test]
fn compare_and_set_orderings() {
    assert_eq!(Order::AcqRel.success(), Order::AcqRel);
    assert_eq!(Order::AcqRel.failure(), Order::Acquire);
    assert_eq!(Order::Release.failure(), Order::Relaxed);
    let pair = (Order::SeqCst, Order::Relaxed);
    assert_eq!(pair.success(), Order::SeqCst);
    assert_eq!(pair.failure(), Order::Relaxed);
}

#[test]
fn null_pointer() {
    let p = Ptr::<u64>::null();
    assert!(p.is_null());
    assert_eq!(p.as_raw(), 0);
    assert_eq!(p.tag(), 0);
    // A tag does not make a null pointer point anywhere.
    let tagged = p.with_tag(1);
    assert!(tagged.is_null());
    assert_eq!(tagged.tag(), 1);
    assert!(Ptr::<u64>::default().is_null());
}

#[test]
fn pointer_from_raw() {
    let p = Ptr::<u32>::from_raw(0x80);
    assert!(!p.is_null());
    assert_eq!(p.as_raw(), 0x80);
    assert_eq!(p.tag(), 0);
    let q = p.with_tag(2);
    assert_eq!(q.as_raw(), 0x80);
    assert_eq!(q.tag(), 2);
    assert!(p != q);
    assert!(q == Ptr::<u32>::from_raw(0x80).with_tag(2));
    let copy = q;
    assert!(copy == q);
}

#[test]
fn owned_keeps_its_tag() {
    let guard = unprotected();
    let owned = Owned::<u32>::from_raw(0x100);
    assert_eq!(owned.tag(), 0);
    let owned = owned.with_tag(3);
    assert_eq!(owned.tag(), 3);
    let p = owned.into_ptr(&guard);
    assert_eq!(p.as_raw(), 0x100);
    assert_eq!(p.tag(), 3);
    let back = p.into_owned();
    assert_eq!(back.tag(), 3);
    assert_eq!(back.into_raw(), 0x100);
}

#[test]
fn load_store_swap() {
    let guard = unprotected();
    let mut a = Atomic::<u64>::null();
    assert!(a.load(Order::SeqCst, &guard).is_null());
    a.store(Ptr::from_raw(0x1000), Order::SeqCst);
    assert_eq!(a.load(Order::SeqCst, &guard).as_raw(), 0x1000);
    let previous = a.swap(Ptr::null(), Order::SeqCst, &guard);
    assert_eq!(previous.as_raw(), 0x1000);
    assert!(a.load(Order::SeqCst, &guard).is_null());
    a.store_owned(Owned::from_raw(0x2000).with_tag(1), Order::Release);
    let p = a.load(Order::Acquire, &guard);
    assert_eq!((p.as_raw(), p.tag()), (0x2000, 1));
    let b = a.clone();
    assert!(b.load(Order::Relaxed, &guard) == p);
    assert!(Atomic::<u64>::default().load(Order::Relaxed, &guard).is_null());
    assert!(Atomic::<u64>::from_ptr(p).load(Order::Relaxed, &guard) == p);
    assert_eq!(Atomic::<u64>::from_raw(0x3000).load(Order::Relaxed, &guard).as_raw(), 0x3000);
    let c = Atomic::<u64>::from_owned(Owned::from_raw(0x4000));
    assert_eq!(c.load(Order::Relaxed, &guard).as_raw(), 0x4000);
}

#[test]
fn compare_and_set_succeeds_on_the_expected_word() {
    let guard = unprotected();
    let mut a = Atomic::<u64>::from_raw(0x1000);
    let current = a.load(Order::SeqCst, &guard);
    let new = Ptr::<u64>::from_raw(0x2000);
    // Success carries the pointer that was written.
    match a.compare_and_set(current, new, Order::SeqCst, &guard) {
        Ok(written) => assert!(written == new),
        Err(_) => panic!("the cell holds the expected word"),
    }
    assert!(a.load(Order::SeqCst, &guard) == new);
    // The old word is not the expected one any more.
    match a.compare_and_set(current, Ptr::null(), (Order::SeqCst, Order::Relaxed), &guard) {
        Ok(_) => panic!("the cell does not hold the expected word"),
        Err(actual) => assert!(actual == new),
    }
    assert!(a.load(Order::SeqCst, &guard) == new);
    // The tag is part of the word.
    match a.compare_and_set_weak(new.with_tag(1), Ptr::null(), Order::SeqCst, &guard) {
        Ok(_) => panic!("the tags differ"),
        Err(actual) => assert!(actual == new),
    }
    let tagged = Ptr::<u64>::from_raw(0x3000).with_tag(5);
    match a.compare_and_set_weak(new, tagged, Order::SeqCst, &guard) {
        Ok(written) => {
            assert_eq!((written.as_raw(), written.tag()), (0x3000, 5));
        }
        Err(_) => panic!("the cell holds the expected word"),
    }
    assert!(a.load(Order::SeqCst, &guard) == tagged);
}

#[test]
fn compare_and_set_owned_returns_what_was_not_installed() {
    let guard = unprotected();
    let mut a = Atomic::<u64>::null();
    let first = Owned::<u64>::from_raw(0x1000).with_tag(2);
    let written = match a.compare_and_set_owned(Ptr::null(), first, Order::SeqCst, &guard) {
        Ok(written) => written,
        Err(_) => panic!("the cell was null"),
    };
    assert_eq!((written.as_raw(), written.tag()), (0x1000, 2));
    assert!(a.load(Order::SeqCst, &guard) == written);
    let second = Owned::<u64>::from_raw(0x2000);
    match a.compare_and_set_weak_owned(Ptr::null(), second, Order::SeqCst, &guard) {
        Ok(_) => panic!("the cell was not null"),
        Err((actual, rejected)) => {
            assert!(actual == written);
            assert_eq!(rejected.into_raw(), 0x2000);
        }
    }
    assert!(a.load(Order::SeqCst, &guard) == written);
}

#[test]
fn tagged_cas() {
    let guard = unprotected();
    let raw = 0x1000usize;
    let mut a = Atomic::<u64>::from_raw(raw);
    assert_eq!(low_bits::<u64>(), 7);
    let p = a.load(Order::SeqCst, &guard);
    assert_eq!((p.as_raw(), p.tag()), (raw, 0));
    let p = a.fetch_or(3, Order::SeqCst, &guard);
    assert_eq!((p.as_raw(), p.tag()), (raw, 0));
    let p = a.load(Order::SeqCst, &guard);
    assert_eq!((p.as_raw(), p.tag()), (raw, 3));
    let p = a.fetch_and(2, Order::SeqCst, &guard);
    assert_eq!((p.as_raw(), p.tag()), (raw, 3));
    let p = a.load(Order::SeqCst, &guard);
    assert_eq!((p.as_raw(), p.tag()), (raw, 2));
    let p = a.fetch_xor(3, Order::SeqCst, &guard);
    assert_eq!((p.as_raw(), p.tag()), (raw, 2));
    let p = a.load(Order::SeqCst, &guard);
    assert_eq!((p.as_raw(), p.tag()), (raw, 1));
}

#[test]
fn tag_operations_leave_the_address_alone() {
    let guard = unprotected();
    let raw = 0xfff8usize;
    let mut a = Atomic::<u64>::from_raw(raw);
    a.fetch_or(usize::MAX, Order::SeqCst, &guard);
    let p = a.load(Order::SeqCst, &guard);
    assert_eq!((p.as_raw(), p.tag()), (raw, 7));
    a.fetch_xor(usize::MAX, Order::SeqCst, &guard);
    let p = a.load(Order::SeqCst, &guard);
    assert_eq!((p.as_raw(), p.tag()), (raw, 0));
    a.fetch_or(5, Order::SeqCst, &guard);
    a.fetch_and(0, Order::SeqCst, &guard);
    let p = a.load(Order::SeqCst, &guard);
    assert_eq!((p.as_raw(), p.tag()), (raw, 0));
}

#[test]
fn pointers_are_ordered_by_their_words() {
    let low = Ptr::<u32>::from_raw(0x40);
    let high = Ptr::<u32>::from_raw(0x80);
    assert!(low < high);
    assert!(high > low);
    assert!(low < low.with_tag(1));
    assert!(low.with_tag(3) < high);
    assert!(low <= low);
    assert_eq!(low.partial_cmp(&high), Some(std::cmp::Ordering::Less));
    assert_eq!(high.partial_cmp(&high), Some(std::cmp::Ordering::Equal));
}

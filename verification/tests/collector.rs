use epoch_reclaim::atomic::Atomic;
use epoch_reclaim::atomic::Order;
use epoch_reclaim::atomic::Ptr;
use epoch_reclaim::collector::Collector;
use epoch_reclaim::garbage::MAX_OBJECTS;
use epoch_reclaim::guard::unprotected;
use epoch_reclaim::internal::COLLECT_STEPS;
use epoch_reclaim::internal::PINS_BETWEEN_COLLECT;
use std::sync::atomic::AtomicUsize;
use std::sync::atomic::Ordering;
use std::sync::Arc;

#[test]
fn global_pin_reentrant() {
    let mut collector = Collector::new();
    let mut handle = collector.handle();
    assert!(!handle.is_pinned());
    let outer = handle.pin(&mut collector);
    let inner = handle.pin(&mut collector);
    assert!(handle.is_pinned());
    inner.unpin(&mut handle, &mut collector);
    assert!(handle.is_pinned());
    outer.unpin(&mut handle, &mut collector);
    assert!(!handle.is_pinned());
}

#[test]
fn handle_pin_reentrant() {
    let mut collector = Collector::new();
    let mut handle = collector.handle();

    assert!(!handle.is_pinned());
    let outer = handle.pin(&mut collector);
    {
        let inner = handle.pin(&mut collector);
        assert!(handle.is_pinned());
        inner.unpin(&mut handle, &mut collector);
    }
    assert!(handle.is_pinned());
    outer.unpin(&mut handle, &mut collector);
    assert!(!handle.is_pinned());
}

#[test]
fn mutator_pin_reentrant() {
    let mut collector = Collector::new();
    let mut mutator = collector.handle();

    assert!(!mutator.is_pinned());
    let outer = mutator.pin(&mut collector);
    {
        let inner = mutator.pin(&mut collector);
        assert!(mutator.is_pinned());
        inner.unpin(&mut mutator, &mut collector);
    }
    assert!(mutator.is_pinned());
    outer.unpin(&mut mutator, &mut collector);
    assert!(!mutator.is_pinned());
}

#[test]
fn mutator_pin_holds_advance() {
    let mut collector = Collector::new();
    for _ in 0..8 {
        for _ in 0..100_000 {
            let mut mutator = collector.handle();
            let guard = mutator.pin(&mut collector);
            let before = collector.epoch();
            collector.collect();
            let after = collector.epoch();
            assert!(after.wrapping_sub(before) <= 2);
            guard.unpin(&mut mutator, &mut collector);
            mutator.unregister(&mut collector);
        }
    }
}

#[test]
fn default_handle_flush() {
    let mut collector = Collector::new();
    let mut handle = collector.handle();
    let guard = handle.pin(&mut collector);
    guard.flush(&mut handle, &mut collector);
    guard.unpin(&mut handle, &mut collector);
}

#[test]
fn new_collector() {
    let collector = Collector::new();
    assert_eq!(collector.epoch(), 0);
    assert_eq!(COLLECT_STEPS, 8);
    assert_eq!(PINS_BETWEEN_COLLECT, 128);
}

#[test]
fn pin_collects_once_in_128() {
    let mut collector = Collector::new();
    let mut handle = collector.handle();
    // The first 127 pinnings do not collect.
    for _ in 1..PINS_BETWEEN_COLLECT {
        let guard = handle.pin(&mut collector);
        assert_eq!(collector.epoch(), 0);
        // A nested pin announces nothing and collects nothing.
        let nested = handle.pin(&mut collector);
        assert_eq!(collector.epoch(), 0);
        nested.unpin(&mut handle, &mut collector);
        guard.unpin(&mut handle, &mut collector);
    }
    // The 128th does: the handle itself is pinned in the current epoch and
    // holds nothing back.
    let guard = handle.pin(&mut collector);
    assert_eq!(collector.epoch(), 2);
    guard.unpin(&mut handle, &mut collector);
    for _ in 1..PINS_BETWEEN_COLLECT {
        let guard = handle.pin(&mut collector);
        assert_eq!(collector.epoch(), 2);
        guard.unpin(&mut handle, &mut collector);
    }
    let guard = handle.pin(&mut collector);
    assert_eq!(collector.epoch(), 4);
    guard.unpin(&mut handle, &mut collector);
}

#[test]
fn unpin_clears_the_state_word() {
    let mut collector = Collector::new();
    let mut handle = collector.handle();
    assert!(handle.is_registered(&collector));
    let outer = handle.pin(&mut collector);
    let inner = handle.pin(&mut collector);
    assert_eq!(handle.guards(), 2);
    inner.unpin(&mut handle, &mut collector);
    assert!(handle.is_pinned());
    assert!(handle.is_registered(&collector));
    outer.unpin(&mut handle, &mut collector);
    assert!(!handle.is_pinned());
    assert!(handle.is_registered(&collector));
    // Nothing holds the epoch back any more.
    collector.collect();
    collector.collect();
    assert_eq!(collector.epoch(), 4);
}

#[test]
fn unprotected_defer_runs_at_once() {
    let mut collector = Collector::new();
    let mut handle = collector.handle();
    let calls = Arc::new(AtomicUsize::new(0));
    let counter = calls.clone();
    let guard = unprotected();
    assert!(!guard.is_protected());
    guard.defer(&mut handle, &mut collector, move || {
        counter.fetch_add(1, Ordering::SeqCst);
    });
    assert_eq!(calls.load(Ordering::SeqCst), 1);
    // Flushing from an unprotected guard does nothing.
    guard.flush(&mut handle, &mut collector);
    assert_eq!(collector.epoch(), 0);
    guard.unpin(&mut handle, &mut collector);
    assert!(!handle.is_pinned());
}

#[test]
fn single_thread_retire() {
    let mut collector = Collector::new();
    let mut handle = collector.handle();
    let value = Arc::new(1234);
    let witness = Arc::downgrade(&value);
    let mut a = Atomic::<u64>::from_raw(0x1000);

    let guard = handle.pin(&mut collector);
    assert!(guard.is_protected());
    let p = a.load(Order::SeqCst, &guard);
    assert_eq!(p.as_raw(), 0x1000);
    let p = a.swap(Ptr::null(), Order::SeqCst, &guard);
    assert_eq!(p.as_raw(), 0x1000);
    assert!(a.load(Order::SeqCst, &guard).is_null());
    guard.defer(&mut handle, &mut collector, move || drop(value));
    guard.flush(&mut handle, &mut collector);
    guard.unpin(&mut handle, &mut collector);
    assert!(witness.upgrade().is_some());

    for _ in 0..3 {
        collector.collect();
        let guard = handle.pin(&mut collector);
        guard.unpin(&mut handle, &mut collector);
    }
    assert!(witness.upgrade().is_none());
}

#[test]
fn garbage_waits_for_two_advancements() {
    let mut collector = Collector::new();
    let mut handle = collector.handle();
    let calls = Arc::new(AtomicUsize::new(0));

    // The pin announces the epoch 0.
    let guard = handle.pin(&mut collector);
    assert_eq!(collector.epoch(), 0);
    let counter = calls.clone();
    guard.defer(&mut handle, &mut collector, move || {
        counter.fetch_add(1, Ordering::SeqCst);
    });
    // The bag is tagged 0. The handle is pinned in the current epoch, so
    // the epoch advances to 2, and no further while the handle stays pinned.
    guard.flush(&mut handle, &mut collector);
    assert_eq!(collector.epoch(), 2);
    assert_eq!(calls.load(Ordering::SeqCst), 0);
    guard.flush(&mut handle, &mut collector);
    assert_eq!(collector.epoch(), 2);
    assert_eq!(calls.load(Ordering::SeqCst), 0);
    guard.unpin(&mut handle, &mut collector);
    // The epoch 4 is two advancements after 0.
    collector.collect();
    assert_eq!(collector.epoch(), 4);
    assert_eq!(calls.load(Ordering::SeqCst), 1);
    collector.collect();
    assert_eq!(collector.epoch(), 6);
    assert_eq!(calls.load(Ordering::SeqCst), 1);
}

#[test]
fn two_participants_advance() {
    let mut collector = Collector::new();
    let mut a = collector.handle();
    let mut b = collector.handle();
    let freed = Arc::new(AtomicUsize::new(0));

    // A pins in the epoch 0 and keeps its guard.
    let guard_a = a.pin(&mut collector);
    assert_eq!(collector.epoch(), 0);

    // B pins, retires a value and unpins. Both are pinned in the current
    // epoch, so the flush advances it to 2.
    let guard_b = b.pin(&mut collector);
    let counter = freed.clone();
    guard_b.defer(&mut b, &mut collector, move || {
        counter.fetch_add(1, Ordering::SeqCst);
    });
    guard_b.flush(&mut b, &mut collector);
    assert_eq!(collector.epoch(), 2);
    guard_b.unpin(&mut b, &mut collector);

    // B pins and unpins 128 times, which makes it try to advance. A holds
    // the epoch back.
    for _ in 0..128 {
        let guard_b = b.pin(&mut collector);
        guard_b.unpin(&mut b, &mut collector);
    }
    assert_eq!(collector.epoch(), 2);
    assert_eq!(freed.load(Ordering::SeqCst), 0);

    // A unpins. The next attempt advances the epoch, and the value is freed.
    guard_a.unpin(&mut a, &mut collector);
    assert!(!a.is_pinned());
    collector.collect();
    assert_eq!(collector.epoch(), 4);
    assert_eq!(freed.load(Ordering::SeqCst), 1);
}

#[test]
fn full_bag_is_handed_over() {
    let mut collector = Collector::new();
    let mut handle = collector.handle();
    let calls = Arc::new(AtomicUsize::new(0));
    let guard = handle.pin(&mut collector);
    // Exactly the capacity: nothing is handed over yet.
    for _ in 0..MAX_OBJECTS {
        let counter = calls.clone();
        guard.defer(&mut handle, &mut collector, move || {
            counter.fetch_add(1, Ordering::SeqCst);
        });
    }
    guard.unpin(&mut handle, &mut collector);
    for _ in 0..4 {
        collector.collect();
    }
    assert_eq!(collector.epoch(), 8);
    assert_eq!(calls.load(Ordering::SeqCst), 0);
    // One more piece: the full bag goes to the queue, tagged 8.
    let guard = handle.pin(&mut collector);
    let counter = calls.clone();
    guard.defer(&mut handle, &mut collector, move || {
        counter.fetch_add(1000, Ordering::SeqCst);
    });
    guard.unpin(&mut handle, &mut collector);
    collector.collect();
    assert_eq!(collector.epoch(), 10);
    assert_eq!(calls.load(Ordering::SeqCst), 0);
    collector.collect();
    assert_eq!(collector.epoch(), 12);
    assert_eq!(calls.load(Ordering::SeqCst), MAX_OBJECTS);
    // The piece that did not fit is still in the bag of the handle.
    collector.collect();
    assert_eq!(calls.load(Ordering::SeqCst), MAX_OBJECTS);
    // Giving the handle back hands its bag over, tagged with the epoch.
    handle.unregister(&mut collector);
    let epoch = collector.epoch();
    collector.collect();
    collector.collect();
    assert_eq!(collector.epoch(), epoch + 4);
    assert_eq!(calls.load(Ordering::SeqCst), MAX_OBJECTS + 1000);
}

#[test]
fn collect_destroys_at_most_eight_bags() {
    let mut collector = Collector::new();
    let mut handle = collector.handle();
    let calls = Arc::new(AtomicUsize::new(0));
    let guard = handle.pin(&mut collector);
    // The first bag is tagged 0 and its flush advances the epoch to 2; the
    // other nine are tagged 2.
    for _ in 0..10 {
        let counter = calls.clone();
        guard.defer(&mut handle, &mut collector, move || {
            counter.fetch_add(1, Ordering::SeqCst);
        });
        guard.flush(&mut handle, &mut collector);
    }
    assert_eq!(collector.epoch(), 2);
    guard.unpin(&mut handle, &mut collector);
    assert_eq!(calls.load(Ordering::SeqCst), 0);
    // At 4 only the first bag is old enough.
    collector.collect();
    assert_eq!(calls.load(Ordering::SeqCst), 1);
    // At 6 all nine are, but one collect takes eight.
    collector.collect();
    assert_eq!(calls.load(Ordering::SeqCst), 9);
    collector.collect();
    assert_eq!(calls.load(Ordering::SeqCst), 10);
}

#[test]
fn unregistered_handle_holds_nothing_back() {
    let mut collector = Collector::new();
    let mut a = collector.handle();
    let b = collector.handle();
    let guard = a.pin(&mut collector);
    assert_eq!(collector.epoch(), 0);
    // B pins itself to leave and collects: both are pinned in 0, so the
    // epoch advances to 2, and then A holds it back.
    b.unregister(&mut collector);
    assert_eq!(collector.epoch(), 2);
    collector.collect();
    assert_eq!(collector.epoch(), 2);
    guard.unpin(&mut a, &mut collector);
    collector.collect();
    assert_eq!(collector.epoch(), 4);
    a.unregister(&mut collector);
    let epoch = collector.epoch();
    collector.collect();
    assert_eq!(collector.epoch(), epoch + 2);
}

#[test]
fn many_handles_reuse_the_registry() {
    let mut collector = Collector::new();
    for _ in 0..1000 {
        let mut handle = collector.handle();
        let guard = handle.pin(&mut collector);
        guard.unpin(&mut handle, &mut collector);
        handle.unregister(&mut collector);
    }
    let before = collector.epoch();
    collector.collect();
    assert_eq!(collector.epoch(), before + 2);
}

#[test]
fn destroy_runs_what_is_left() {
    let mut collector = Collector::new();
    let mut handle = collector.handle();
    let calls = Arc::new(AtomicUsize::new(0));
    let guard = handle.pin(&mut collector);
    for _ in 0..3 {
        let counter = calls.clone();
        guard.defer(&mut handle, &mut collector, move || {
            counter.fetch_add(1, Ordering::SeqCst);
        });
        guard.flush(&mut handle, &mut collector);
    }
    let counter = calls.clone();
    guard.defer(&mut handle, &mut collector, move || {
        counter.fetch_add(10, Ordering::SeqCst);
    });
    guard.unpin(&mut handle, &mut collector);
    assert_eq!(calls.load(Ordering::SeqCst), 0);
    // The bag of the handle goes to the queue when the handle is given
    // back; destroying the collector runs every bag, whatever its epoch.
    // Only the first bag, tagged 0, is old enough by then.
    handle.unregister(&mut collector);
    assert_eq!(collector.epoch(), 4);
    assert_eq!(calls.load(Ordering::SeqCst), 1);
    collector.destroy();
    assert_eq!(calls.load(Ordering::SeqCst), 13);
}

use epoch_reclaim::deferred::Deferred;
use epoch_reclaim::garbage::Bag;
use epoch_reclaim::garbage::Garbage;
use epoch_reclaim::garbage::MAX_OBJECTS;
use std::sync::atomic::AtomicUsize;
use std::sync::atomic::Ordering;
use std::sync::Arc;

#[test]
fn smoke_on_stack() {
    let a = [0usize; 1];
    let mut d = Deferred::new(move || drop(a));
    d.call();
}

#[test]
fn smoke_on_heap() {
    let a = [0usize; 10];
    let mut d = Deferred::new(move || drop(a));
    d.call();
}

#[test]
fn string() {
    let a = "hello".to_string();
    let mut d = Deferred::new(move || assert_eq!(a, "hello"));
    d.call();
}

#[test]
fn boxed_slice_i32() {
    let a: Box<[i32]> = vec![2, 3, 5, 7].into_boxed_slice();
    let mut d = Deferred::new(move || assert_eq!(*a, [2, 3, 5, 7]));
    d.call();
}

#[test]
fn long_slice_usize() {
    let a: [usize; 5] = [2, 3, 5, 7, 11];
    let mut d = Deferred::new(move || assert_eq!(a, [2, 3, 5, 7, 11]));
    d.call();
}

#[test]
fn deferred_is_called_once() {
    let calls = Arc::new(AtomicUsize::new(0));
    let counter = calls.clone();
    let mut d = Deferred::new(move || {
        counter.fetch_add(1, Ordering::SeqCst);
    });
    assert!(d.is_pending());
    assert_eq!(calls.load(Ordering::SeqCst), 0);
    d.call();
    assert!(!d.is_pending());
    assert_eq!(calls.load(Ordering::SeqCst), 1);
}

#[test]
fn garbage_runs_its_function() {
    let calls = Arc::new(AtomicUsize::new(0));
    let counter = calls.clone();
    let garbage = Garbage::new(move || {
        counter.fetch_add(1, Ordering::SeqCst);
    });
    assert_eq!(calls.load(Ordering::SeqCst), 0);
    garbage.run();
    assert_eq!(calls.load(Ordering::SeqCst), 1);
}

#[test]
fn new_bag_is_empty() {
    let bag = Bag::new();
    assert!(bag.is_empty());
    assert_eq!(bag.len(), 0);
    assert!(Bag::default().is_empty());
    assert_eq!(bag.run(), 0);
}

#[test]
fn bag_is_full_at_its_capacity() {
    assert_eq!(MAX_OBJECTS, 64);
    let calls = Arc::new(AtomicUsize::new(0));
    let mut bag = Bag::new();
    for i in 0..MAX_OBJECTS {
        let counter = calls.clone();
        let pushed = bag.try_push(Garbage::new(move || {
            counter.fetch_add(1, Ordering::SeqCst);
        }));
        assert!(pushed.is_ok());
        assert_eq!(bag.len(), i + 1);
        assert!(!bag.is_empty());
    }
    // The next piece does not fit and comes back.
    let counter = calls.clone();
    let rejected = bag.try_push(Garbage::new(move || {
        counter.fetch_add(1000, Ordering::SeqCst);
    }));
    assert_eq!(bag.len(), MAX_OBJECTS);
    match rejected {
        Ok(()) => panic!("the bag was full"),
        Err(garbage) => garbage.run(),
    }
    assert_eq!(calls.load(Ordering::SeqCst), 1000);
    assert_eq!(bag.run(), MAX_OBJECTS);
    assert_eq!(calls.load(Ordering::SeqCst), 1000 + MAX_OBJECTS);
}

#[test]
fn bag_runs_each_piece_once() {
    let log = Arc::new(std::sync::Mutex::new(Vec::new()));
    let mut bag = Bag::new();
    for i in 0..5usize {
        let log = log.clone();
        assert!(bag.try_push(Garbage::new(move || log.lock().unwrap().push(i))).is_ok());
    }
    assert_eq!(bag.run(), 5);
    let mut seen = log.lock().unwrap().clone();
    // The newest piece runs first.
    assert_eq!(seen, vec![4, 3, 2, 1, 0]);
    seen.sort();
    assert_eq!(seen, vec![0, 1, 2, 3, 4]);
}

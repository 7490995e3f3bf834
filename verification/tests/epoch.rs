use epoch_reclaim::atomic::Order;
use epoch_reclaim::epoch::epoch_distance;
use epoch_reclaim::epoch::is_reclaimable;
use epoch_reclaim::epoch::Epoch;
use epoch_reclaim::epoch::LocalEpoch;
use epoch_reclaim::guard::unprotected;
use epoch_reclaim::sync::list::List;

#[test]
fn distance_on_the_circle() {
    assert_eq!(epoch_distance(0, 0), 0);
    assert_eq!(epoch_distance(2, 0), 2);
    assert_eq!(epoch_distance(0, 2), 2);
    assert_eq!(epoch_distance(10, 4), 6);
    assert_eq!(epoch_distance(0, usize::MAX - 1), 2);
    assert_eq!(epoch_distance(usize::MAX - 1, 2), 4);
    assert_eq!(epoch_distance(usize::MAX, 0), 1);
    let half = 1usize << (usize::BITS - 1);
    assert_eq!(epoch_distance(half, 0), half);
    assert_eq!(epoch_distance(half + 2, 0), half - 2);
}

#[test]
fn reclaimable_after_two_advancements() {
    assert!(!is_reclaimable(0, 0));
    assert!(!is_reclaimable(2, 0));
    assert!(is_reclaimable(4, 0));
    assert!(is_reclaimable(6, 0));
    assert!(!is_reclaimable(0, 2));
    assert!(is_reclaimable(0, 4));
    assert!(!is_reclaimable(0, usize::MAX - 1));
    assert!(is_reclaimable(2, usize::MAX - 1));
}

#[test]
fn epoch_cell() {
    let mut epoch = Epoch::new();
    assert_eq!(epoch.load(Order::Relaxed), 0);
    epoch.store(42, Order::Release);
    assert_eq!(epoch.load(Order::Relaxed), 42);
}

#[test]
fn local_epoch_state() {
    let mut state = LocalEpoch::new();
    assert_eq!(state.get_state(), (false, 0));
    state.set_pinned(6);
    assert_eq!(state.get_state(), (true, 6));
    state.set_unpinned();
    assert_eq!(state.get_state(), (false, 0));
    state.set_pinned(usize::MAX - 1);
    assert_eq!(state.get_state(), (true, usize::MAX - 1));
    state.set_pinned(0);
    assert_eq!(state.get_state(), (true, 0));
}

#[test]
fn advance_with_no_participant() {
    let guard = unprotected();
    let mut epoch = Epoch::new();
    let mut registries: List<LocalEpoch> = List::new();
    assert_eq!(epoch.try_advance(&mut registries, &guard), 2);
    assert_eq!(epoch.load(Order::Relaxed), 2);
    assert_eq!(epoch.try_advance(&mut registries, &guard), 4);
}

#[test]
fn advance_is_held_back_by_an_older_pin() {
    let guard = unprotected();
    let mut epoch = Epoch::new();
    let mut registries: List<LocalEpoch> = List::new();
    let a = registries.insert(LocalEpoch::new(), &guard);
    let b = registries.insert(LocalEpoch::new(), &guard);
    // Unpinned participants hold nothing back.
    assert_eq!(epoch.try_advance(&mut registries, &guard), 2);
    // A participant pinned in the current epoch does not either.
    registries.get_mut(a).set_pinned(2);
    assert_eq!(epoch.try_advance(&mut registries, &guard), 4);
    // Now it is pinned in an older epoch.
    assert_eq!(epoch.try_advance(&mut registries, &guard), 4);
    registries.get_mut(b).set_pinned(4);
    assert_eq!(epoch.try_advance(&mut registries, &guard), 4);
    assert_eq!(epoch.load(Order::Relaxed), 4);
    registries.get_mut(a).set_unpinned();
    assert_eq!(epoch.try_advance(&mut registries, &guard), 6);
    assert_eq!(epoch.load(Order::Relaxed), 6);
}

#[test]
fn deleted_participant_holds_nothing_back() {
    let guard = unprotected();
    let mut epoch = Epoch::new();
    let mut registries: List<LocalEpoch> = List::new();
    let a = registries.insert(LocalEpoch::new(), &guard);
    registries.get_mut(a).set_pinned(0);
    assert_eq!(epoch.try_advance(&mut registries, &guard), 2);
    assert_eq!(epoch.try_advance(&mut registries, &guard), 2);
    registries.delete(a, &guard);
    assert_eq!(epoch.try_advance(&mut registries, &guard), 4);
    assert_eq!(registries.traverse(&guard), vec![]);
}

#[test]
fn epoch_wrap() {
    let guard = unprotected();
    let start = usize::MAX - 1;
    let mut epoch = Epoch::new();
    epoch.store(start, Order::Relaxed);
    let mut registries: List<LocalEpoch> = List::new();
    let a = registries.insert(LocalEpoch::new(), &guard);
    registries.get_mut(a).set_pinned(start);
    // Garbage is retired in the epoch `start`.
    let tag = epoch.load(Order::Relaxed);
    assert!(!is_reclaimable(epoch.load(Order::Relaxed), tag));
    // The first advancement wraps around to 0.
    assert_eq!(epoch.try_advance(&mut registries, &guard), 0);
    assert!(!is_reclaimable(0, tag));
    // The participant is still pinned in `start` and holds the epoch back.
    assert_eq!(epoch.try_advance(&mut registries, &guard), 0);
    registries.get_mut(a).set_unpinned();
    assert_eq!(epoch.try_advance(&mut registries, &guard), 2);
    assert!(is_reclaimable(2, tag));
}

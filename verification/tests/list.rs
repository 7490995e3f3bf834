use epoch_reclaim::collector::Collector;
use epoch_reclaim::guard::unprotected;
use epoch_reclaim::sync::list::IterError;
use epoch_reclaim::sync::list::List;

fn collect_all(list: &mut List<char>) -> Vec<char> {
    let guard = unprotected();
    let mut iter = list.iter(&guard);
    let mut seen = Vec::new();
    loop {
        match iter.next(list, &guard) {
            None => break,
            Some(Ok(slot)) => seen.push(*list.get(slot).get()),
            Some(Err(IterError::LostRace)) => panic!("a list with one owner loses no race"),
        }
    }
    seen
}

#[test]
fn empty_list() {
    let mut list: List<char> = List::new();
    assert_eq!(list.len(), 0);
    assert_eq!(collect_all(&mut list), vec![]);
    assert_eq!(list.traverse(&unprotected()), vec![]);
}

#[test]
fn insert_puts_the_newest_first() {
    let guard = unprotected();
    let mut list: List<char> = List::new();
    let a = list.insert('A', &guard);
    let b = list.insert('B', &guard);
    let c = list.insert('C', &guard);
    assert_eq!((a, b, c), (0, 1, 2));
    assert_eq!(list.len(), 3);
    assert_eq!(*list.get(b).get(), 'B');
    assert_eq!(collect_all(&mut list), vec!['C', 'B', 'A']);
    assert_eq!(list.traverse(&guard), vec![c, b, a]);
}

#[test]
fn delete_during_iterate() {
    let guard = unprotected();
    let mut list: List<char> = List::new();
    let a = list.insert('A', &guard);
    let b = list.insert('B', &guard);
    let c = list.insert('C', &guard);
    list.delete(b, &guard);
    // The deleted entry is skipped, and unlinked on the way.
    let mut iter = list.iter(&guard);
    assert_eq!(iter.next(&mut list, &guard), Some(Ok(c)));
    assert_eq!(iter.next(&mut list, &guard), Some(Ok(a)));
    assert_eq!(iter.next(&mut list, &guard), None);
    assert_eq!(iter.next(&mut list, &guard), None);
    assert_eq!(collect_all(&mut list), vec!['C', 'A']);
    assert_eq!(list.traverse(&guard), vec![c, a]);
}

#[test]
fn unlinked_storage_waits_under_a_pin() {
    let mut collector = Collector::new();
    let mut handle = collector.handle();
    let guard = handle.pin(&mut collector);
    let mut list: List<char> = List::new();
    let a = list.insert('A', &guard);
    let b = list.insert('B', &guard);
    let c = list.insert('C', &guard);
    list.delete(b, &guard);
    assert_eq!(list.traverse(&guard), vec![c, a]);
    // The slot of B is not used again before it is reclaimed.
    let d = list.insert('D', &guard);
    assert_eq!(d, 3);
    assert_eq!(list.reclaim(), 1);
    assert_eq!(list.reclaim(), 0);
    let e = list.insert('E', &guard);
    assert_eq!(e, b);
    assert_eq!(list.traverse(&guard), vec![e, d, c, a]);
    assert_eq!(*list.get(e).get(), 'E');
    guard.unpin(&mut handle, &mut collector);
}

#[test]
fn unlinked_storage_is_free_at_once_without_a_pin() {
    let guard = unprotected();
    let mut list: List<char> = List::new();
    let a = list.insert('A', &guard);
    let b = list.insert('B', &guard);
    list.delete(b, &guard);
    assert_eq!(list.traverse(&guard), vec![a]);
    assert_eq!(list.reclaim(), 0);
    let c = list.insert('C', &guard);
    assert_eq!(c, b);
    assert_eq!(list.len(), 2);
    assert_eq!(collect_all(&mut list), vec!['C', 'A']);
}

#[test]
fn delete_every_entry() {
    let guard = unprotected();
    let mut list: List<char> = List::new();
    let a = list.insert('A', &guard);
    let b = list.insert('B', &guard);
    let c = list.insert('C', &guard);
    list.delete(c, &guard);
    list.delete(a, &guard);
    assert_eq!(collect_all(&mut list), vec!['B']);
    list.delete(b, &guard);
    // Deleting twice changes nothing.
    list.delete(b, &guard);
    assert_eq!(collect_all(&mut list), vec![]);
    assert_eq!(list.traverse(&guard), vec![]);
    // All three slots are used again, the one given up last first.
    assert_eq!(list.insert('X', &guard), b);
    assert_eq!(list.insert('Y', &guard), a);
    assert_eq!(list.insert('Z', &guard), c);
    assert_eq!(list.insert('W', &guard), 3);
    assert_eq!(collect_all(&mut list), vec!['W', 'Z', 'Y', 'X']);
}

#[test]
fn deleted_entry_keeps_its_data_until_unlinked() {
    let guard = unprotected();
    let mut list: List<u32> = List::new();
    let a = list.insert(7, &guard);
    list.delete(a, &guard);
    assert_eq!(*list.get(a).get(), 7);
}

#[test]
fn replace_and_change_data() {
    let guard = unprotected();
    let mut list: List<u32> = List::new();
    let a = list.insert(1, &guard);
    let b = list.insert(2, &guard);
    assert_eq!(list.replace(a, 10), 1);
    *list.get_mut(b) += 5;
    assert_eq!(*list.get(a).get(), 10);
    assert_eq!(*list.get(b).get(), 7);
    assert_eq!(list.traverse(&guard), vec![b, a]);
}

#[test]
fn iterator_stops_where_it_stands() {
    let guard = unprotected();
    let mut list: List<u32> = List::new();
    let first = list.insert(1, &guard);
    let second = list.insert(2, &guard);
    let third = list.insert(3, &guard);
    let fourth = list.insert(4, &guard);
    list.delete(third, &guard);
    list.delete(second, &guard);
    let mut iter = list.iter(&guard);
    assert_eq!(iter.next(&mut list, &guard), Some(Ok(fourth)));
    // Two deleted entries in a row are unlinked in one step.
    assert_eq!(iter.next(&mut list, &guard), Some(Ok(first)));
    assert_eq!(list.traverse(&guard), vec![fourth, first]);
}

#[test]
fn second_iterator_loses_the_race() {
    let guard = unprotected();
    let mut list: List<char> = List::new();
    let a = list.insert('A', &guard);
    let b = list.insert('B', &guard);
    let c = list.insert('C', &guard);
    list.delete(c, &guard);
    // Two iterators stand before C, which is deleted.
    let mut first = list.iter(&guard);
    let mut second = list.iter(&guard);
    // The first unlinks C and returns B.
    assert_eq!(first.next(&mut list, &guard), Some(Ok(b)));
    assert_eq!(list.traverse(&guard), vec![b, a]);
    // The second finds the head swung past C: it has lost the race, once.
    assert_eq!(second.next(&mut list, &guard), Some(Err(IterError::LostRace)));
    assert_eq!(list.traverse(&guard), vec![b, a]);
    // It goes on from what the head holds now.
    assert_eq!(second.next(&mut list, &guard), Some(Ok(b)));
    assert_eq!(second.next(&mut list, &guard), Some(Ok(a)));
    assert_eq!(second.next(&mut list, &guard), None);
    assert_eq!(first.next(&mut list, &guard), Some(Ok(a)));
    assert_eq!(first.next(&mut list, &guard), None);
}

#[test]
fn loser_parks_nothing() {
    let mut collector = Collector::new();
    let mut handle = collector.handle();
    let guard = handle.pin(&mut collector);
    let mut list: List<char> = List::new();
    let a = list.insert('A', &guard);
    let b = list.insert('B', &guard);
    list.delete(b, &guard);
    let mut first = list.iter(&guard);
    let mut second = list.iter(&guard);
    assert_eq!(first.next(&mut list, &guard), Some(Ok(a)));
    assert_eq!(second.next(&mut list, &guard), Some(Err(IterError::LostRace)));
    // Only the winner has parked the slot of B.
    assert_eq!(list.reclaim(), 1);
    assert_eq!(second.next(&mut list, &guard), Some(Ok(a)));
    guard.unpin(&mut handle, &mut collector);
}

#[test]
fn iterator_out_of_step_at_a_live_entry_goes_on() {
    let guard = unprotected();
    let mut list: List<char> = List::new();
    let a = list.insert('A', &guard);
    let b = list.insert('B', &guard);
    let mut iter = list.iter(&guard);
    // An insert at the head puts the iterator out of step, but its entry
    // is not deleted: it is returned all the same.
    let c = list.insert('C', &guard);
    assert_eq!(iter.next(&mut list, &guard), Some(Ok(b)));
    assert_eq!(iter.next(&mut list, &guard), Some(Ok(a)));
    assert_eq!(iter.next(&mut list, &guard), None);
    assert_eq!(list.traverse(&guard), vec![c, b, a]);
}

#[test]
fn iterator_behind_a_deleted_entry_starts_again() {
    let guard = unprotected();
    let mut list: List<char> = List::new();
    let a = list.insert('A', &guard);
    let b = list.insert('B', &guard);
    let c = list.insert('C', &guard);
    let mut iter = list.iter(&guard);
    assert_eq!(iter.next(&mut list, &guard), Some(Ok(c)));
    // The iterator stands behind C, before B. Both are deleted now.
    list.delete(c, &guard);
    list.delete(b, &guard);
    // It cannot unlink B through C, which is deleted itself.
    assert_eq!(iter.next(&mut list, &guard), Some(Err(IterError::LostRace)));
    // Its link is the marked word of C now: it starts again from the
    // head, unlinks both and returns A.
    assert_eq!(iter.next(&mut list, &guard), Some(Ok(a)));
    assert_eq!(iter.next(&mut list, &guard), None);
    assert_eq!(list.traverse(&guard), vec![a]);
}

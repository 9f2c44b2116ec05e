use cpkit::bounded_sorted_list::BoundedSortedList;

#[test]
fn keeps_the_smallest_keys_sorted() {
    let mut l: BoundedSortedList<u32> = BoundedSortedList::new(3);
    assert_eq!(l.len(), 0);
    assert!(l.can_insert(50));
    l.insert(30, 1);
    l.insert(10, 2);
    l.insert(20, 3);
    assert_eq!(l.list(), vec![(10, 2), (20, 3), (30, 1)]);
    // full: a better key evicts the worst entry
    assert!(l.can_insert(25));
    l.insert(25, 4);
    assert_eq!(l.list(), vec![(10, 2), (20, 3), (25, 4)]);
    // full: a worse key changes nothing
    assert!(!l.can_insert(99));
    l.insert(99, 5);
    assert_eq!(l.list(), vec![(10, 2), (20, 3), (25, 4)]);
    assert_eq!(l.len(), 3);
}

#[test]
fn equal_keys_stay_in_insertion_order() {
    let mut l: BoundedSortedList<u32> = BoundedSortedList::new(4);
    l.insert(7, 1);
    l.insert(7, 2);
    l.insert(3, 9);
    l.insert(7, 3);
    assert_eq!(l.list(), vec![(3, 9), (7, 1), (7, 2), (7, 3)]);
}

use todc::linearizability::entry::Entry;

#[test]
fn test_new_entry_has_length_one() {
    assert_eq!(Entry::<u32>::len(&vec![Entry::<u32>::new(1)], 0), 1);
}

#[test]
fn test_history_has_correct_length() {
    let entries = Entry::<u32>::from_iter((0..5).collect());
    assert_eq!(Entry::len(&entries, 0), 5);
}

#[test]
fn test_bypasses_entry() {
    let mut entries = Entry::<u32>::from_iter((0..3).collect());
    let second = entries[0].next.unwrap();
    Entry::lift(&mut entries, second);

    // One of the entries has been lifted from the history.
    assert_eq!(Entry::len(&entries, 0), 2);
    let new_second = entries[0].next.unwrap();
    // The former second entry, with id=1, has been lifted.
    assert_eq!(entries[0].id, 0);
    assert_eq!(entries[new_second].id, 2);
}

#[test]
fn test_bypasses_return_entry() {
    let mut entries = Entry::<u32>::from_iter((0..3).collect());
    let second = entries[0].next.unwrap();
    let third = entries[second].next;
    entries[second].rtrn = third;
    Entry::lift(&mut entries, second);

    // Both call and return entries have been lifted from the history.
    assert_eq!(Entry::len(&entries, 0), 1);
}

#[test]
fn test_retains_links_to_sibling_entries() {
    let mut entries = Entry::<u32>::from_iter((0..3).collect());
    let second = entries[0].next.unwrap();
    Entry::lift(&mut entries, second);

    // prev, and rtrn all continue to point to their respective entries.
    assert_eq!(Entry::len(&entries, second), 2);
    let next = entries[second].next.unwrap();
    assert_eq!(entries[next].id, 2);
    let prev = entries[second].prev.unwrap();
    assert_eq!(entries[prev].id, 0);
}

#[test]
fn test_retains_links_to_return_entry() {
    let mut entries = Entry::<u32>::from_iter((0..3).collect());
    let second = entries[0].next.unwrap();
    let third = entries[second].next;
    entries[second].rtrn = third;
    Entry::lift(&mut entries, second);

    let rtrn = entries[second].rtrn.unwrap();
    assert_eq!(entries[rtrn].id, 2);
}

#[test]
fn unlift_restores_the_history() {
    let mut entries = Entry::<u32>::from_iter((0..4).collect());
    entries[1].rtrn = Some(2);
    Entry::lift(&mut entries, 1);
    assert_eq!(Entry::len(&entries, 0), 2);
    Entry::unlift(&mut entries, 1);
    assert_eq!(Entry::len(&entries, 0), 4);
    for (k, entry) in entries.iter().enumerate() {
        assert_eq!(entry.id, k);
        assert_eq!(entry.next, if k + 1 < 4 { Some(k + 1) } else { None });
        assert_eq!(entry.prev, if k > 0 { Some(k - 1) } else { None });
    }
}

#[test]
fn is_last_and_is_call() {
    let mut entries = Entry::<u32>::from_iter((0..2).collect());
    assert!(!entries[0].is_last());
    assert!(entries[1].is_last());
    assert!(!entries[0].is_call());
    entries[0].rtrn = Some(1);
    assert!(entries[0].is_call());
}

use std::iter::zip;
use todc::linearizability::history::Action::{Call, Response};
use todc::linearizability::history::{Entry, History};

#[test]
fn creates_sequential_ids() {
    let history = History::from_actions(vec![
        (0, Call("a")),
        (0, Response("a")),
        (0, Call("b")),
        (0, Response("b")),
    ]);
    for (i, entry) in history.iter().iter().enumerate() {
        assert_eq!(entry.id(), i);
    }
}

#[test]
fn links_actions_of_multiple_processes() {
    let history = History::from_actions(vec![
        (0, Call("a")),
        (1, Call("b")),
        (2, Call("c")),
        (0, Response("a")),
        (1, Response("b")),
        (2, Response("c")),
        (0, Call("e")),
        (1, Call("f")),
        (2, Call("g")),
        (0, Response("e")),
        (1, Response("f")),
        (2, Response("g")),
    ]);
    for entry in history.iter() {
        println!("{:?}", entry);
        if let Entry::Call(call) = entry {
            match history.index(history.index_of_id(call.response)) {
                Entry::Response(response) => assert_eq!(call.operation, response.operation),
                Entry::Call(_) => panic!("Call entry was linked to another call entry"),
            }
        }
    }
}

#[test]
fn links_actions_of_single_process() {
    let history = History::from_actions(vec![
        (0, Call("a")),
        (0, Response("a")),
        (0, Call("b")),
        (0, Response("b")),
        (0, Call("c")),
        (0, Response("c")),
    ]);
    for entry in history.iter() {
        if let Entry::Call(call) = entry {
            match history.index(history.index_of_id(call.response)) {
                Entry::Response(response) => assert_eq!(call.operation, response.operation),
                Entry::Call(_) => panic!("Call entry was linked to another call entry"),
            }
        }
    }
}

#[test]
fn is_inverse_of_remove() {
    let history = History::from_actions(vec![
        (0, Call("a")),
        (1, Call("b")),
        (2, Call("c")),
        (0, Response("a")),
        (1, Response("b")),
        (2, Response("c")),
    ]);
    let mut copy = history.clone();
    let entry = copy.remove(1);
    copy.insert(entry);
    for (copy, entry) in zip(copy.iter(), history.iter()) {
        assert_eq!(copy, entry);
    }
}

#[test]
fn removes_call_and_response_entries() {
    let mut history = History::from_actions(vec![
        (0, Call("a")),
        (1, Call("b")),
        (2, Call("c")),
        (0, Response("a")),
        (1, Response("b")),
        (2, Response("c")),
    ]);
    history.lift(0);
    for (entry, letter) in zip(history.iter(), ["b", "c", "b", "c"]) {
        match entry {
            Entry::Call(call) => assert_eq!(call.operation, letter),
            Entry::Response(resp) => assert_eq!(resp.operation, letter),
        }
    }
}

#[test]
fn removes_only_requested_entry() {
    let mut history = History::from_actions(vec![
        (0, Call("a")),
        (1, Call("b")),
        (0, Response("a")),
        (1, Response("b")),
    ]);
    match history.remove(1) {
        Entry::Call(call) => assert_eq!(call.operation, "b"),
        Entry::Response(_) => panic!("Removed incorrect entry"),
    }
    for (entry, letter) in zip(history.iter(), ["a", "a", "b"]) {
        match entry {
            Entry::Call(entry) => assert_eq!(entry.operation, letter),
            Entry::Response(entry) => assert_eq!(entry.operation, letter),
        }
    }
}

#[test]
fn is_inverse_of_lift() {
    let mut history = History::from_actions(vec![
        (0, Call("a")),
        (1, Call("b")),
        (0, Response("a")),
        (1, Response("b")),
    ]);
    let copy = history.clone();
    let (call, response) = history.lift(0);
    history.unlift(call, response);
    assert_eq!(history, copy)
}

#[test]
fn matches_nth_call_with_nth_response_of_same_process() {
    let history = History::from_actions(vec![
        (1, Call("x")),
        (0, Call("a")),
        (0, Response("a")),
        (1, Response("x")),
    ]);
    match history.index(0) {
        Entry::Call(call) => assert_eq!(call.response, 3),
        Entry::Response(_) => panic!("expected a call"),
    }
    match history.index(1) {
        Entry::Call(call) => assert_eq!(call.response, 2),
        Entry::Response(_) => panic!("expected a call"),
    }
    assert_eq!(history.len(), 4);
    assert!(!history.is_empty());
}

#[test]
fn lift_records_where_entries_were_removed() {
    let mut history = History::from_actions(vec![
        (0, Call("a")),
        (1, Call("b")),
        (0, Response("a")),
        (1, Response("b")),
    ]);
    let (call, response) = history.lift(1);
    assert_eq!(call.id(), 1);
    assert_eq!(response.id(), 3);
    let (call_index, response_index) = history.unlift(call, response);
    assert_eq!((call_index, response_index), (1, 2));
    for (k, entry) in history.iter().iter().enumerate() {
        assert_eq!(entry.id(), k);
    }
}

#[test]
fn index_mut_changes_one_entry() {
    let mut history = History::from_actions(vec![(0, Call(1)), (0, Response(2))]);
    match history.index_mut(1) {
        Entry::Response(response) => response.operation = 7,
        Entry::Call(_) => panic!("expected a response"),
    }
    match history.index(1) {
        Entry::Response(response) => assert_eq!(response.operation, 7),
        Entry::Call(_) => panic!("expected a response"),
    }
    match history.index(0) {
        Entry::Call(call) => assert_eq!(call.operation, 1),
        Entry::Response(_) => panic!("expected a call"),
    }
}

#[test]
fn lifts_undone_in_reverse_order_restore_history() {
    let mut history = History::from_actions(vec![
        (0, Call("a")),
        (1, Call("b")),
        (2, Call("c")),
        (0, Response("a")),
        (1, Response("b")),
        (2, Response("c")),
    ]);
    let copy = history.clone();
    let first = history.lift(1);
    let second = history.lift(0);
    assert_eq!(history.len(), 2);
    history.unlift(second.0, second.1);
    history.unlift(first.0, first.1);
    assert!(history == copy);
}

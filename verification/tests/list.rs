use std::collections::VecDeque;
use std::sync::Arc;

use async_selector::list::List;
use async_selector::queue::Receiver;

#[test]
fn list_drops_values_on_drop() {
    let mut list = List::new();
    let mut queue = Receiver::new();
    let nodes = std::iter::repeat_with(|| {
        let node = Arc::new(());
        let weak = Arc::downgrade(&node);
        list.push_back(&mut queue, node);
        weak
    })
    .take(4)
    .collect::<Vec<_>>();

    for node in &nodes {
        assert!(node.upgrade().is_some());
    }
    drop(list);
    for node in &nodes {
        assert!(node.upgrade().is_none());
    }
}

#[test]
fn list_allows_node_access() {
    let mut list = List::new();
    let mut queue = Receiver::new();

    let node = list.push_back(&mut queue, 0);
    assert_eq!(*list.get(node).unwrap(), 0);

    assert_eq!(list.len(), 1);
    assert!(!list.is_empty());

    let borrowed = list.get(node).unwrap();
    assert_eq!(*borrowed, 0);
    let borrowed_2 = list.get(node).unwrap();
    assert_eq!(*borrowed_2, 0);
    assert!(std::ptr::eq(borrowed, borrowed_2));

    let borrowed = list.get_mut(node).unwrap();
    assert_eq!(*borrowed, 0);
    *borrowed += 1;

    let removed = list.remove(node).unwrap();
    assert_eq!(*removed.get_pin(), 1);
    assert_eq!(removed.node(), node);

    assert_eq!(list.len(), 0);
    assert!(list.is_empty());
}

#[test]
fn cursor_order() {
    let mut list = List::new();
    let mut queue = Receiver::new();
    for i in 0..10 {
        list.push_back(&mut queue, i);
    }

    let mut cursor = list.cursor();
    let mut expected = (0..10).collect::<VecDeque<_>>();

    let mut front = true;
    while !expected.is_empty() {
        assert_eq!(cursor.len(), expected.len());
        assert!(!cursor.is_empty());

        if front {
            let found = *cursor.pop_front().unwrap().get_protected();
            let expected = expected.pop_front().unwrap();
            assert_eq!(found, expected);
        } else {
            let found = *cursor.pop_back().unwrap().get_protected();
            let expected = expected.pop_back().unwrap();
            assert_eq!(found, expected);
        }
        front = !front;
    }

    assert_eq!(cursor.len(), 0);
    assert!(cursor.is_empty());
    assert!(cursor.pop_front().is_none());
    assert!(cursor.pop_back().is_none());
}

#[test]
fn cursor_mut_order() {
    let mut list = List::new();
    let mut queue = Receiver::new();
    for i in 0..10 {
        list.push_back(&mut queue, i);
    }

    let mut cursor = list.cursor_mut();
    let mut expected = (0..10).collect::<VecDeque<_>>();

    let mut front = true;
    while !expected.is_empty() {
        assert_eq!(cursor.len(), expected.len());
        assert!(!cursor.is_empty());

        if front {
            let found_1 = *cursor.peek_front().unwrap().get_protected();
            let found_2 = *cursor.pop_front().unwrap().get_protected();
            let expected = expected.pop_front().unwrap();
            assert_eq!(found_1, expected);
            assert_eq!(found_2, expected);
        } else {
            let found_1 = *cursor.peek_back().unwrap().get_protected();
            let found_2 = *cursor.pop_back().unwrap().get_protected();
            let expected = expected.pop_back().unwrap();
            assert_eq!(found_1, expected);
            assert_eq!(found_2, expected);
        }
        front = !front;
    }

    assert_eq!(cursor.len(), 0);
    assert!(cursor.is_empty());
    assert!(cursor.pop_front().is_none());
    assert!(cursor.pop_back().is_none());
}

#[test]
fn removal_with_cursor_mut() {
    let mut list = List::new();
    let mut queue = Receiver::new();
    for i in 0_u32..10 {
        list.push_back(&mut queue, i);
    }

    let mut cursor = list.cursor_mut();
    while let Some(front) = cursor.peek_front() {
        let power = front.get_protected().is_power_of_two();
        if power {
            cursor.remove_front();
        } else {
            cursor.pop_front();
        }
    }

    assert_eq!(list.len(), 6);
    assert!(!list.is_empty());
    let mut cursor = list.cursor();
    while let Some(elem) = cursor.pop_front() {
        assert!(!elem.get_protected().is_power_of_two());
    }

    let mut cursor = list.cursor_mut();
    while cursor.remove_back().is_some() {}

    assert_eq!(list.len(), 0);
    assert!(list.is_empty());
}

#[test]
fn removed_reference_stays_stale_after_slot_reuse() {
    let mut list = List::new();
    let mut queue = Receiver::new();
    let a = list.push_back(&mut queue, "a");
    let b = list.push_back(&mut queue, "b");
    assert_eq!(list.remove(a).unwrap().into_inner(), "a");
    assert!(list.get(a).is_none());
    assert!(!list.contains_node(a));
    assert!(list.remove(a).is_none());

    // the freed slot is reused under a new generation
    let c = list.push_back(&mut queue, "c");
    assert_eq!(c.index, a.index);
    assert_ne!(c, a);
    assert!(list.get(a).is_none());
    assert_eq!(*list.get(c).unwrap(), "c");
    assert_eq!(list.node_refs(), vec![b, c]);
}

#[test]
fn list_keeps_insertion_order_and_queue_marks() {
    let mut list = List::new();
    let mut queue = Receiver::new();
    let refs = (0..5).map(|i| list.push_back(&mut queue, i * 10)).collect::<Vec<_>>();
    assert_eq!(list.node_refs(), refs);
    // each pushed node is queued, in order, and marked as queued
    assert_eq!(queue.len(), 5);
    assert!(refs.iter().all(|r| list.is_enqueued(*r)));
    for r in &refs {
        assert_eq!(queue.dequeue(), Some(*r));
    }
    assert_eq!(queue.dequeue(), None);
    list.set_enqueued(refs[1], false);
    assert!(list.is_enqueued(refs[2]));
    assert!(!list.is_enqueued(refs[1]));
    list.remove(refs[0]);
    list.remove(refs[4]);
    assert_eq!(list.node_refs(), vec![refs[1], refs[2], refs[3]]);
    let mut cursor = list.cursor();
    assert_eq!(*cursor.pop_back().unwrap().get_protected(), 30);
    assert_eq!(*cursor.pop_front().unwrap().get_protected(), 10);
    assert_eq!(*cursor.pop_front().unwrap().get_protected(), 20);
    assert!(cursor.pop_front().is_none());
}

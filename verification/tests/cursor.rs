use std::sync::atomic::{AtomicUsize, Ordering};
use std::sync::Arc;

use async_selector::list::cursor::{Cursor, CursorMut};
use async_selector::list::{List, NodeRef};
use async_selector::queue::Receiver;

struct TestValue {
    value: u32,
    drops: Arc<AtomicUsize>,
}

impl Drop for TestValue {
    fn drop(&mut self) {
        self.drops.fetch_add(1, Ordering::SeqCst);
    }
}

fn insert_nodes(list: &mut List<TestValue>, ids: &[u32], drops: &Arc<AtomicUsize>) -> Vec<NodeRef> {
    let mut queue = Receiver::new();
    ids.iter()
        .map(|id| {
            list.push_back(&mut queue, TestValue {
                value: id * 10,
                drops: drops.clone(),
            })
        })
        .collect()
}

fn assert_ring(list: &List<TestValue>, expected: &[NodeRef]) {
    assert_eq!(list.len(), expected.len());
    assert_eq!(list.node_refs(), expected.to_vec());
    let mut cursor = list.cursor();
    for node in expected.iter().rev() {
        assert_eq!(cursor.pop_back().unwrap().node(), *node);
    }
}

fn assert_unlinked(list: &List<TestValue>, node: NodeRef) {
    assert!(!list.contains_node(node));
    assert!(list.get(node).is_none());
}

#[test]
fn empty_cursors_report_empty_and_yield_nothing() {
    let list = List::<TestValue>::new();
    let mut cursor = Cursor::new(&list);
    assert_eq!(cursor.len(), 0);
    assert!(cursor.is_empty());
    assert!(cursor.pop_front().is_none());
    assert!(cursor.pop_back().is_none());

    let mut list = List::<TestValue>::new();
    let mut cursor = CursorMut::new(&mut list);
    assert_eq!(cursor.len(), 0);
    assert!(cursor.is_empty());
    assert!(cursor.peek_front().is_none());
    assert!(cursor.peek_back().is_none());
    assert!(cursor.pop_front().is_none());
    assert!(cursor.pop_back().is_none());
    assert!(cursor.remove_front().is_none());
    assert!(cursor.remove_back().is_none());
}

#[test]
fn cursor_visits_nodes_from_both_ends_without_duplication() {
    let drops = Arc::new(AtomicUsize::new(0));
    let mut list = List::new();
    let nodes = insert_nodes(&mut list, &[1, 2, 3, 4], &drops);

    let mut cursor = Cursor::new(&list);
    assert_eq!(cursor.len(), 4);
    assert!(!cursor.is_empty());

    let front = cursor.pop_front().unwrap();
    assert_eq!(front.node(), nodes[0]);
    assert_eq!(front.get_protected().value, 10);
    assert_eq!(cursor.len(), 3);

    let back = cursor.pop_back().unwrap();
    assert_eq!(back.node(), nodes[3]);
    assert_eq!(back.get_protected().value, 40);
    assert_eq!(cursor.len(), 2);

    let next_front = cursor.pop_front().unwrap();
    assert_eq!(next_front.node(), nodes[1]);
    assert_eq!(next_front.get_protected().value, 20);
    assert_eq!(cursor.len(), 1);

    let next_back = cursor.pop_back().unwrap();
    assert_eq!(next_back.node(), nodes[2]);
    assert_eq!(next_back.get_protected().value, 30);

    assert!(cursor.is_empty());
    assert_eq!(cursor.len(), 0);
    assert!(cursor.pop_front().is_none());
    assert!(cursor.pop_back().is_none());
    assert_ring(&list, &[nodes[0], nodes[1], nodes[2], nodes[3]]);
    assert_eq!(drops.load(Ordering::SeqCst), 0);
}

#[test]
fn cursor_mut_peek_pop_and_remove_update_lengths_and_links() {
    let drops = Arc::new(AtomicUsize::new(0));
    let mut list = List::new();
    let nodes = insert_nodes(&mut list, &[1, 2, 3, 4], &drops);

    let mut cursor = CursorMut::new(&mut list);
    assert_eq!(cursor.len(), 4);

    let mut front = cursor.peek_front().unwrap();
    assert_eq!(front.node(), nodes[0]);
    assert_eq!(front.get_protected().value, 10);
    front.get_protected_mut().value = 11;
    assert_eq!(cursor.len(), 4);

    let mut back = cursor.peek_back().unwrap();
    assert_eq!(back.node(), nodes[3]);
    assert_eq!(back.get_protected().value, 40);
    back.get_protected_mut().value = 44;
    assert_eq!(cursor.len(), 4);

    let mut front = cursor.pop_front().unwrap();
    assert_eq!(front.node(), nodes[0]);
    assert_eq!(front.get_protected().value, 11);
    front.get_protected_mut().value = 12;
    assert_eq!(cursor.len(), 3);

    let mut back = cursor.pop_back().unwrap();
    assert_eq!(back.node(), nodes[3]);
    assert_eq!(back.get_protected().value, 44);
    back.get_protected_mut().value = 45;
    assert_eq!(cursor.len(), 2);

    let mut removed_front = cursor.remove_front().unwrap();
    assert_eq!(removed_front.node(), nodes[1]);
    assert_eq!(removed_front.get_pin().value, 20);
    removed_front.get_pin_mut().value = 22;
    drop(removed_front);
    assert_ring(cursor.list, &[nodes[0], nodes[2], nodes[3]]);
    assert_eq!(cursor.len(), 1);
    assert_eq!(drops.load(Ordering::SeqCst), 1);

    let removed_back = cursor.remove_back().unwrap();
    assert_eq!(removed_back.node(), nodes[2]);
    assert_eq!(removed_back.get_pin().value, 30);
    drop(removed_back);

    assert_ring(cursor.list, &[nodes[0], nodes[3]]);
    assert_eq!(cursor.len(), 0);
    assert!(cursor.is_empty());
    assert!(cursor.peek_front().is_none());
    assert!(cursor.peek_back().is_none());
    assert!(cursor.pop_front().is_none());
    assert!(cursor.pop_back().is_none());
    assert!(cursor.remove_front().is_none());
    assert!(cursor.remove_back().is_none());
    assert_eq!(cursor.list.get(nodes[0]).unwrap().value, 12);
    assert_eq!(cursor.list.get(nodes[3]).unwrap().value, 45);
    assert_unlinked(cursor.list, nodes[1]);
    assert_unlinked(cursor.list, nodes[2]);
    assert_eq!(drops.load(Ordering::SeqCst), 2);
}

#[test]
fn cursor_mut_single_item_removal_clears_the_list() {
    let drops = Arc::new(AtomicUsize::new(0));
    let mut list = List::new();
    let node = insert_nodes(&mut list, &[1], &drops)
        .into_iter()
        .next()
        .unwrap();

    let mut cursor = CursorMut::new(&mut list);
    let removed = cursor.remove_front().unwrap();
    assert_eq!(removed.node(), node);
    drop(removed);

    assert!(cursor.list.is_empty());
    assert_eq!(cursor.len(), 0);
    assert!(cursor.is_empty());
    assert!(cursor.remove_back().is_none());
    assert!(cursor.peek_front().is_none());
    assert!(cursor.peek_back().is_none());
    assert_unlinked(cursor.list, node);
    assert_eq!(drops.load(Ordering::SeqCst), 1);
}

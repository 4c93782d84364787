use std::sync::Arc;

use async_selector::list::NodeRef;
use async_selector::queue::Receiver;
use async_selector::FutureSelector;

fn node(index: usize) -> NodeRef {
    NodeRef { index, generation: 0 }
}

#[test]
fn queue_returns_correct_tail_marker() {
    let mut queue = Receiver::new();
    assert!(queue.register_waker().is_none());
    queue.enqueue(node(0));
    assert_eq!(queue.register_waker(), Some(node(0)));
    assert_eq!(queue.dequeue(), Some(node(0)));
    assert!(queue.register_waker().is_none());
    queue.enqueue(node(1));
    assert_eq!(queue.register_waker(), Some(node(1)));
}

#[test]
fn marker() {
    let mut queue = Receiver::new();
    assert_eq!(queue.register_waker(), None);
    queue.enqueue(node(7));
    assert_eq!(queue.register_waker(), Some(node(7)));
    queue.enqueue(node(3));
    assert_eq!(queue.register_waker(), Some(node(3)));
    assert_eq!(queue.len(), 2);
    assert!(!queue.is_empty());
}

#[test]
fn queue_is_first_in_first_out() {
    let mut queue = Receiver::new();
    for i in 0..10 {
        queue.enqueue(node(i));
    }
    for i in 0..10 {
        assert_eq!(queue.dequeue(), Some(node(i)));
    }
    assert_eq!(queue.dequeue(), None);
    assert!(queue.is_empty());
}

#[test]
fn dropped_queue_drops_nodes() {
    let mut selector = FutureSelector::default();
    let values = std::iter::repeat_with(|| Arc::new(()))
        .take(10)
        .map(|strong| {
            let weak = Arc::downgrade(&strong);
            selector.push(strong);
            weak
        })
        .collect::<Vec<_>>();
    assert_eq!(selector.len(), 10);
    drop(selector);
    for value in values {
        assert!(value.upgrade().is_none());
    }
}

#[test]
fn queue_cleanup() {
    let mut selector = FutureSelector::default();
    let values = (0..10)
        .map(|_| {
            let strong = Arc::new(());
            let weak = Arc::downgrade(&strong);
            let id = selector.push(strong).id().clone();
            selector.wake(&id);
            weak
        })
        .collect::<Vec<_>>();
    drop(selector);
    values.iter().for_each(|value| {
        assert!(value.upgrade().is_none());
    });
}

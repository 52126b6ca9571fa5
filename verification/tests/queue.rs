//! Behaviour of the bi-directional priority queue.

use memocache::queue::{BiPriorityQueue, Item, Mode};

fn fruit_queue() -> BiPriorityQueue<&'static str> {
    let mut q = BiPriorityQueue::new();
    q.enqueue("apple", 5);
    q.enqueue("banana", 2);
    q.enqueue("orange", 10);
    q.enqueue("grape", 7);
    q
}

#[test]
fn peek_each_mode() {
    let q = fruit_queue();
    assert_eq!(q.peek(Mode::HIGHEST), Some(&"orange"));
    assert_eq!(q.peek(Mode::LOWEST), Some(&"banana"));
    assert_eq!(q.peek(Mode::OLDEST), Some(&"apple"));
    assert_eq!(q.peek(Mode::NEWEST), Some(&"grape"));
}

#[test]
fn dequeue_each_mode() {
    let mut q = fruit_queue();
    assert_eq!(q.dequeue(Mode::HIGHEST), Some("orange"));
    assert_eq!(q.dequeue(Mode::LOWEST), Some("banana"));
    assert_eq!(q.dequeue(Mode::OLDEST), Some("apple"));
    assert_eq!(q.dequeue(Mode::NEWEST), Some("grape"));
    assert_eq!(q.dequeue(Mode::HIGHEST), None);
}

#[test]
fn empty_queue_serves_nothing() {
    let mut q: BiPriorityQueue<u32> = BiPriorityQueue::new();
    assert_eq!(q.peek(Mode::HIGHEST), None);
    assert_eq!(q.peek(Mode::LOWEST), None);
    assert_eq!(q.peek(Mode::OLDEST), None);
    assert_eq!(q.peek(Mode::NEWEST), None);
    assert_eq!(q.dequeue(Mode::HIGHEST), None);
    assert_eq!(q.dequeue(Mode::OLDEST), None);
}

#[test]
fn ties_break_by_insertion_order() {
    let mut q = BiPriorityQueue::new();
    q.enqueue("first", 5);
    q.enqueue("second", 5);
    // Among equal priorities the later insertion ranks higher, the earlier
    // one lower.
    assert_eq!(q.peek(Mode::HIGHEST), Some(&"second"));
    assert_eq!(q.peek(Mode::LOWEST), Some(&"first"));
}

#[test]
fn dequeue_keeps_the_rest_in_order() {
    let mut q = fruit_queue();
    assert_eq!(q.dequeue(Mode::HIGHEST), Some("orange"));
    assert_eq!(q.peek(Mode::OLDEST), Some(&"apple"));
    assert_eq!(q.peek(Mode::NEWEST), Some(&"grape"));
    assert_eq!(q.dequeue(Mode::OLDEST), Some("apple"));
    assert_eq!(q.peek(Mode::OLDEST), Some(&"banana"));
}

#[test]
fn items_compare_by_priority_then_id() {
    let a = Item { id: 0, value: "a", priority: 3 };
    let b = Item { id: 1, value: "b", priority: 3 };
    let c = Item { id: 2, value: "c", priority: 9 };
    assert!(a < b);
    assert!(b < c);
    assert!(a != b);
    assert_eq!(a, Item { id: 0, value: "other", priority: 3 });
}

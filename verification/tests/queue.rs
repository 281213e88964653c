use cahill::media::{Meta, Playable, Track};
use cahill::queue::Queue;

fn track(path: &str) -> Track {
    let mut meta = Meta::default();
    meta.path = path.to_string();
    Track { meta }
}

fn current(q: &Queue) -> Option<String> {
    q.current().map(|t| t.meta.path.clone())
}

#[test]
fn empty_queue_has_no_current() {
    let q = Queue::new();
    assert!(q.is_empty());
    assert_eq!(q.len(), 0);
    assert!(q.current().is_none());
}

#[test]
fn first_push_becomes_current() {
    let mut q = Queue::new();
    q.push(track("a"));
    q.push(track("b"));
    assert_eq!(q.len(), 2);
    assert!(!q.is_empty());
    assert_eq!(current(&q).as_deref(), Some("a"));
}

#[test]
fn next_and_prev_walk_the_queue() {
    let mut q = Queue::new();
    q.push(track("a"));
    q.push(track("b"));
    q.push(track("c"));
    assert_eq!(q.next().map(|t| t.path().to_string()).as_deref(), Some("b"));
    assert_eq!(q.next().map(|t| t.path().to_string()).as_deref(), Some("c"));
    assert_eq!(q.prev().map(|t| t.path().to_string()).as_deref(), Some("b"));
    assert_eq!(q.next().map(|t| t.path().to_string()).as_deref(), Some("c"));
}

#[test]
fn next_past_the_end_leaves_the_queue() {
    let mut q = Queue::new();
    q.push(track("a"));
    assert!(q.next().is_none());
    assert!(q.current().is_none());
    assert!(q.prev().is_none());
    q.push(track("b"));
    assert_eq!(current(&q).as_deref(), Some("a"));
}

#[test]
fn prev_before_the_start_leaves_the_queue() {
    let mut q = Queue::new();
    q.push(track("a"));
    q.push(track("b"));
    assert!(q.prev().is_none());
    assert!(q.next().is_none());
}

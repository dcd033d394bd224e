use baton::notice::Queue;

#[test]
fn the_queue_is_bounded() {
    let mut queue = Queue::default();
    for i in 0..50 {
        queue.push(format!("{i}"));
    }
    assert_eq!(queue.len(), 20);
}

#[test]
fn taking_leaves_the_queue_empty() {
    let mut queue = Queue::default();
    queue.push("one".into());
    let drained = queue.take();
    assert_eq!(drained, vec!["one".to_string()]);
    assert!(queue.is_empty());
}

#[test]
fn the_oldest_notices_are_kept() {
    let mut queue = Queue::new();
    for i in 0..25 {
        queue.push(format!("{i}"));
    }
    let drained = queue.take();
    assert_eq!(drained.first().map(String::as_str), Some("0"));
    assert_eq!(drained.last().map(String::as_str), Some("19"));
}

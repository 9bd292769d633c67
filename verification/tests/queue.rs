use grbly::grbl::engine::SendQueue;

#[test]
fn character_counting() {
    let mut q = SendQueue::new(128);
    q.enqueue("G0 X10".into());
    q.enqueue("G0 X20".into());
    q.enqueue("G0 X30".into());
    let sent = q.flush();
    assert_eq!(sent.len(), 3);

    q.enqueue("G0 X40 Y40 Z40 F1000 S5000 M3 G90 G21 (this is a really long line that should fill the buffer significantly)".into());
    q.enqueue("G0 X50".into());
    let _ = q.flush();
    assert!(q.in_flight_bytes() <= 128);
}

#[test]
fn ack_releases_buffer() {
    let mut q = SendQueue::new(128);
    q.enqueue("G0 X10".into());
    let _ = q.flush();
    let before = q.in_flight_bytes();
    q.ack();
    let after = q.in_flight_bytes();
    assert!(after < before);
}

#[test]
fn bytes_and_line_ends_are_counted() {
    let mut q = SendQueue::new(10);
    q.enqueue("abc".into());
    q.enqueue("\u{e9}\u{e9}".into());
    assert_eq!(q.flush().len(), 2);
    assert_eq!(q.in_flight_bytes(), 4 + 5);
    assert!(q.has_space_for(0));
    assert!(!q.has_space_for(1));
}

#[test]
fn a_line_longer_than_the_buffer_goes_alone() {
    let mut q = SendQueue::new(4);
    q.enqueue("longer than four".into());
    q.enqueue("x".into());
    assert_eq!(q.flush(), vec!["longer than four".to_string()]);
    assert!(!q.has_space_for(0));
    assert!(q.flush().is_empty());
    q.ack();
    assert_eq!(q.flush(), vec!["x".to_string()]);
}

#[test]
fn lines_go_in_order_and_none_is_lost() {
    let mut q = SendQueue::new(12);
    let lines: Vec<String> = (0..20).map(|i| format!("line {i}")).collect();
    for line in &lines {
        q.enqueue(line.clone());
    }
    let mut sent = q.flush();
    while !q.is_idle() {
        q.ack();
        sent.extend(q.flush());
    }
    assert_eq!(sent, lines);
    assert_eq!(q.in_flight_bytes(), 0);
}

#[test]
fn clearing_forgets_everything() {
    let mut q = SendQueue::new(8);
    q.enqueue("abcd".into());
    q.enqueue("efgh".into());
    let _ = q.flush();
    assert!(!q.is_idle());
    q.clear();
    assert!(q.is_idle());
    assert_eq!(q.in_flight_bytes(), 0);
    q.ack();
    assert!(q.is_idle());
}

use drafftink_server::message::Message;
use drafftink_server::registry::Registry;
use drafftink_server::session::Session;

#[test]
fn membership_after_churn() {
    let mut reg = Registry::new(8);
    let a = reg.join("alpha");
    let b = reg.join("alpha");
    let c = reg.join("alpha");
    assert_eq!(reg.room_count(), 1);
    assert_eq!(reg.member_count("alpha"), 3);
    reg.leave("alpha", b);
    assert_eq!(reg.room_count(), 1);
    assert_eq!(reg.member_count("alpha"), 2);
    reg.leave("alpha", a);
    reg.leave("alpha", c);
    assert_eq!(reg.room_count(), 0);
    assert_eq!(reg.member_count("alpha"), 0);
}

#[test]
fn ids_are_unique_across_rooms() {
    let mut reg = Registry::new(8);
    let a = reg.join("alpha");
    let b = reg.join("beta");
    let c = reg.join("alpha");
    assert_ne!(a, b);
    assert_ne!(a, c);
    assert_ne!(b, c);
    assert_eq!(reg.room_count(), 2);
}

#[test]
fn empty_room_is_removed() {
    let mut reg = Registry::new(4);
    let a = reg.join("solo");
    assert_eq!(reg.room_count(), 1);
    reg.leave("solo", a);
    assert_eq!(reg.room_count(), 0);
    assert_eq!(reg.member_count("solo"), 0);
    // a fresh join to the same name creates a fresh room
    let b = reg.join("solo");
    assert_ne!(a, b);
    assert_eq!(reg.member_count("solo"), 1);
}

#[test]
fn broadcast_reaches_everyone_but_sender() {
    let mut reg = Registry::new(8);
    let s = reg.join("r");
    let a = reg.join("r");
    let b = reg.join("r");
    let evicted = reg.broadcast("r", s, &Message::new(s, vec![1, 2, 3]));
    assert!(evicted.is_empty());
    let qa = reg.take_outbound("r", a);
    assert_eq!(qa.len(), 1);
    assert_eq!(qa[0].payload, vec![1, 2, 3]);
    assert_eq!(qa[0].from, s);
    let qb = reg.take_outbound("r", b);
    assert_eq!(qb.len(), 1);
    assert_eq!(qb[0].payload, vec![1, 2, 3]);
    let qs = reg.take_outbound("r", s);
    assert!(qs.is_empty());
}

#[test]
fn broadcast_does_not_cross_rooms() {
    let mut reg = Registry::new(8);
    let s = reg.join("one");
    let _a = reg.join("one");
    let other = reg.join("two");
    reg.broadcast("one", s, &Message::new(s, vec![9]));
    let q = reg.take_outbound("two", other);
    assert!(q.is_empty());
}

#[test]
fn per_sender_order_is_kept() {
    let mut reg = Registry::new(8);
    let s = reg.join("r");
    let a = reg.join("r");
    reg.broadcast("r", s, &Message::new(s, vec![1]));
    reg.broadcast("r", s, &Message::new(s, vec![2]));
    let q = reg.take_outbound("r", a);
    assert_eq!(q.len(), 2);
    assert_eq!(q[0].payload, vec![1]);
    assert_eq!(q[1].payload, vec![2]);
}

#[test]
fn slow_consumer_is_evicted_and_room_goes_on() {
    let mut reg = Registry::new(2);
    let s = reg.join("r");
    let a = reg.join("r");
    let b = reg.join("r");
    assert!(reg.broadcast("r", s, &Message::new(s, vec![1])).is_empty());
    assert!(reg.broadcast("r", s, &Message::new(s, vec![2])).is_empty());
    // a keeps up; b never drains and its queue is at capacity
    let qa = reg.take_outbound("r", a);
    assert_eq!(qa.len(), 2);
    let evicted = reg.broadcast("r", s, &Message::new(s, vec![3]));
    assert_eq!(evicted, vec![b]);
    assert_eq!(reg.member_count("r"), 2);
    // subsequent broadcasts succeed for the remaining members
    let evicted2 = reg.broadcast("r", s, &Message::new(s, vec![4]));
    assert!(evicted2.is_empty());
    let qa2 = reg.take_outbound("r", a);
    assert_eq!(qa2.len(), 2);
    assert_eq!(qa2[0].payload, vec![3]);
    assert_eq!(qa2[1].payload, vec![4]);
}

#[test]
fn one_leave_keeps_room_alive() {
    let mut reg = Registry::new(4);
    let first = reg.join("alpha");
    let second = reg.join("alpha");
    reg.leave("alpha", first);
    assert_eq!(reg.member_count("alpha"), 1);
    assert_eq!(reg.room_count(), 1);
    let _ = second;
}

#[test]
fn double_leave_is_a_no_op() {
    let mut reg = Registry::new(4);
    let a = reg.join("alpha");
    let b = reg.join("alpha");
    reg.leave("alpha", a);
    assert_eq!(reg.member_count("alpha"), 1);
    reg.leave("alpha", a);
    assert_eq!(reg.member_count("alpha"), 1);
    reg.leave("alpha", a);
    assert_eq!(reg.member_count("alpha"), 1);
    assert_eq!(reg.room_count(), 1);
    let _ = b;
}

#[test]
fn leave_of_unknown_room_is_a_no_op() {
    let mut reg = Registry::new(4);
    let a = reg.join("alpha");
    reg.leave("nowhere", a);
    reg.leave("nowhere", 999);
    assert_eq!(reg.room_count(), 1);
    assert_eq!(reg.member_count("alpha"), 1);
}

#[test]
fn broadcast_to_unknown_room_is_silent() {
    let mut reg = Registry::new(4);
    let evicted = reg.broadcast("ghost-room", 5, &Message::new(5, vec![1]));
    assert!(evicted.is_empty());
    assert_eq!(reg.room_count(), 0);
}

#[test]
fn session_queue_is_bounded_and_fifo() {
    let mut s = Session::new(7);
    assert!(s.enqueue(Message::new(1, vec![10]), 2));
    assert!(s.enqueue(Message::new(1, vec![20]), 2));
    assert!(!s.enqueue(Message::new(1, vec![30]), 2));
    let drained = s.take_all();
    assert_eq!(drained.len(), 2);
    assert_eq!(drained[0].payload, vec![10]);
    assert_eq!(drained[1].payload, vec![20]);
    let empty = s.take_all();
    assert!(empty.is_empty());
}

#[test]
fn message_duplicate_is_identical() {
    let m = Message::new(3, vec![1, 2, 3]);
    let d = m.duplicate();
    assert_eq!(d.from, 3);
    assert_eq!(d.payload, vec![1, 2, 3]);
}

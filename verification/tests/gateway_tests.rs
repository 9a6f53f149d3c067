use room_gateway::gateway::Gateway;

fn s(x: &str) -> String {
    x.to_owned()
}

#[test]
fn echo_inclusion() {
    // A member that sends to its own room is among the recipients.
    let mut gw = Gateway::new();
    gw.on_connect(1);
    gw.on_join(1, s("lobby"));
    let emits = gw.on_message(1, &s("lobby"), &s("hi"));
    assert!(emits.iter().any(|e| e.target == 1));
    assert_eq!(emits.len(), 1);
    assert_eq!(emits[0].text, "hi");
}

#[test]
fn disconnect_cleanup() {
    // After A disconnects, A is out of the room and receives nothing.
    let mut gw = Gateway::new();
    gw.on_connect(1);
    gw.on_connect(2);
    gw.on_join(1, s("lobby"));
    gw.on_join(2, s("lobby"));
    gw.on_disconnect(1);
    assert!(!gw.members_of(&s("lobby")).contains(&1));
    let emits = gw.on_message(2, &s("lobby"), &s("hi"));
    assert!(emits.iter().all(|e| e.target != 1));
    assert_eq!(emits.len(), 1);
    assert_eq!(emits[0].target, 2);
}

#[test]
fn empty_room_no_op() {
    // A message to a room with no members produces zero outbound events.
    let mut gw = Gateway::new();
    gw.on_connect(1);
    let emits = gw.on_message(1, &s("ghost-town"), &s("anyone?"));
    assert!(emits.is_empty());
}

#[test]
fn idempotent_join() {
    // Joining twice leaves membership as joining once: one delivery only.
    let mut gw = Gateway::new();
    gw.on_connect(1);
    gw.on_join(1, s("lobby"));
    gw.on_join(1, s("lobby"));
    assert_eq!(gw.members_of(&s("lobby")), vec![1]);
    let emits = gw.on_message(1, &s("lobby"), &s("hi"));
    assert_eq!(emits.len(), 1);
}

#[test]
fn single_room_policy() {
    // A second join switches rooms rather than adding one.
    let mut gw = Gateway::new();
    gw.on_connect(1);
    gw.on_join(1, s("alpha"));
    gw.on_join(1, s("beta"));
    assert!(gw.members_of(&s("alpha")).is_empty());
    assert_eq!(gw.members_of(&s("beta")), vec![1]);
    assert!(gw.is_member(1, &s("beta")));
    assert!(!gw.is_member(1, &s("alpha")));
}

#[test]
fn membership_tracks_last_join_until_disconnect() {
    // Membership reflects the last successful join, until a disconnect.
    let mut gw = Gateway::new();
    gw.on_connect(1);
    gw.on_join(1, s("alpha"));
    assert!(gw.is_member(1, &s("alpha")));
    gw.on_join(1, s("beta"));
    assert!(gw.is_member(1, &s("beta")));
    gw.on_disconnect(1);
    assert!(!gw.is_member(1, &s("beta")));
    assert!(gw.members_of(&s("beta")).is_empty());
}

#[test]
fn join_from_unknown_connection_is_ignored() {
    let mut gw = Gateway::new();
    gw.on_join(5, s("lobby"));
    assert!(gw.members_of(&s("lobby")).is_empty());
}

#[test]
fn connect_twice_registers_once() {
    let mut gw = Gateway::new();
    gw.on_connect(1);
    gw.on_connect(1);
    assert!(gw.is_connected(1));
    gw.on_join(1, s("lobby"));
    assert_eq!(gw.members_of(&s("lobby")), vec![1]);
}

#[test]
fn messages_do_not_change_membership() {
    let mut gw = Gateway::new();
    gw.on_connect(1);
    gw.on_join(1, s("lobby"));
    let _ = gw.on_message(1, &s("lobby"), &s("hi"));
    let _ = gw.on_message(1, &s("elsewhere"), &s("hi"));
    assert_eq!(gw.members_of(&s("lobby")), vec![1]);
    assert!(gw.members_of(&s("elsewhere")).is_empty());
}

#[test]
fn concrete_scenario() {
    // A and B join r1; A sends "hello"; both receive exactly one record
    // with the verbatim text and A's synthetic label; C receives nothing.
    let a: u64 = 1;
    let b: u64 = 2;
    let c: u64 = 3;
    let mut gw = Gateway::new();
    gw.on_connect(a);
    gw.on_connect(b);
    gw.on_connect(c);
    gw.on_join(a, s("r1"));
    gw.on_join(b, s("r1"));
    let emits = gw.on_message(a, &s("r1"), &s("hello"));
    assert_eq!(emits.len(), 2);
    assert_eq!(emits.iter().filter(|e| e.target == a).count(), 1);
    assert_eq!(emits.iter().filter(|e| e.target == b).count(), 1);
    assert!(emits.iter().all(|e| e.target != c));
    for e in &emits {
        assert_eq!(e.text, "hello");
        assert_eq!(e.user, "anon-1");
    }
    // One fan-out, one processing timestamp.
    assert_eq!(emits[0].date_millis, emits[1].date_millis);
}

#[test]
fn sender_outside_room_is_not_echoed() {
    // The fan-out is the room's membership: a non-member sender does not
    // receive its own message.
    let mut gw = Gateway::new();
    gw.on_connect(1);
    gw.on_connect(2);
    gw.on_join(2, s("lobby"));
    let emits = gw.on_message(1, &s("lobby"), &s("hi"));
    assert_eq!(emits.len(), 1);
    assert_eq!(emits[0].target, 2);
    assert_eq!(emits[0].user, "anon-1");
}

use room_gateway::registry::RoomRegistry;

fn s(x: &str) -> String {
    x.to_owned()
}

#[test]
fn join_creates_room_implicitly() {
    let mut reg = RoomRegistry::new();
    reg.join(1, s("lobby"));
    assert!(reg.is_member(1, &s("lobby")));
    assert_eq!(reg.members_of(&s("lobby")), vec![1]);
}

#[test]
fn join_is_idempotent() {
    let mut reg = RoomRegistry::new();
    reg.join(1, s("lobby"));
    reg.join(1, s("lobby"));
    assert_eq!(reg.members_of(&s("lobby")), vec![1]);
}

#[test]
fn registry_supports_multi_room_membership() {
    let mut reg = RoomRegistry::new();
    reg.join(1, s("lobby"));
    reg.join(1, s("den"));
    assert!(reg.is_member(1, &s("lobby")));
    assert!(reg.is_member(1, &s("den")));
}

#[test]
fn leave_removes_only_that_pair() {
    let mut reg = RoomRegistry::new();
    reg.join(1, s("lobby"));
    reg.join(1, s("den"));
    reg.leave(1, &s("lobby"));
    assert!(!reg.is_member(1, &s("lobby")));
    assert!(reg.is_member(1, &s("den")));
}

#[test]
fn leave_unknown_room_is_noop() {
    let mut reg = RoomRegistry::new();
    reg.join(1, s("lobby"));
    reg.leave(1, &s("nowhere"));
    reg.leave(2, &s("lobby"));
    assert_eq!(reg.members_of(&s("lobby")), vec![1]);
}

#[test]
fn leave_all_removes_every_membership() {
    let mut reg = RoomRegistry::new();
    reg.join(1, s("lobby"));
    reg.join(1, s("den"));
    reg.join(2, s("lobby"));
    reg.leave_all(1);
    assert!(!reg.is_member(1, &s("lobby")));
    assert!(!reg.is_member(1, &s("den")));
    assert_eq!(reg.members_of(&s("lobby")), vec![2]);
}

#[test]
fn members_of_unknown_room_is_empty() {
    let reg = RoomRegistry::new();
    assert!(reg.members_of(&s("lobby")).is_empty());
}

#[test]
fn members_listed_in_join_order() {
    let mut reg = RoomRegistry::new();
    reg.join(3, s("lobby"));
    reg.join(1, s("lobby"));
    reg.join(2, s("lobby"));
    assert_eq!(reg.members_of(&s("lobby")), vec![3, 1, 2]);
}

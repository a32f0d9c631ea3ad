use daemon_core::events::{is_event_in_map, EventBroadcaster, EventMap, EventMapKey};
use daemon_core::message::MessageType;

#[test]
fn gate_closed_by_default() {
    let map = EventMap::new();
    assert!(!is_event_in_map(&map, 1, 2, 3));
}

#[test]
fn gate_set_and_cleared() {
    let mut map = EventMap::new();
    map.set(EventMapKey::new(1, 2, 3), true);
    assert!(is_event_in_map(&map, 1, 2, 3));
    assert!(!is_event_in_map(&map, 1, 2, 4));
    assert!(!is_event_in_map(&map, 2, 1, 3));
    map.set(EventMapKey::new(1, 2, 3), false);
    assert!(!is_event_in_map(&map, 1, 2, 3));
}

#[test]
fn add_then_remove_restores_gate() {
    let mut b = EventBroadcaster::new(0);
    let key = EventMapKey::new(4, 0, 1);
    assert!(!b.is_listened(key));
    let id = b.add(7, key).unwrap();
    assert!(b.is_listened(key));
    assert!(is_event_in_map(b.event_map(), 4, 0, 1));
    assert!(b.remove(id));
    assert!(!b.is_listened(key));
    assert!(!is_event_in_map(b.event_map(), 4, 0, 1));
}

#[test]
fn two_listeners_one_removed_keeps_gate() {
    let mut b = EventBroadcaster::new(0);
    let key = EventMapKey::new(4, 0, 1);
    let first = b.add(7, key).unwrap();
    let second = b.add(8, key).unwrap();
    assert_ne!(first, second);
    assert!(b.remove(first));
    assert!(b.is_listened(key));
    assert!(!b.remove(first));
    assert!(b.remove(second));
    assert!(!b.is_listened(key));
}

#[test]
fn broadcast_to_nobody_is_empty() {
    let b = EventBroadcaster::new(0);
    let out = b.broadcast(EventMapKey::new(1, 0, 0), &vec![1, 2]);
    assert!(out.is_empty());
}

#[test]
fn broadcast_reaches_each_listener_in_order() {
    let mut b = EventBroadcaster::new(0);
    let key = EventMapKey::new(1, 0, 0);
    b.add(10, key).unwrap();
    b.add(11, EventMapKey::new(1, 0, 9)).unwrap();
    b.add(12, key).unwrap();
    b.add(13, key).unwrap();
    let out = b.broadcast(key, &vec![9]);
    let sessions: Vec<u32> = out.iter().map(|d| d.session).collect();
    assert_eq!(sessions, vec![10, 12, 13]);
    for d in &out {
        assert_eq!(d.message.service, 1);
        assert_eq!(d.message.object, 0);
        assert_eq!(d.message.kind, MessageType::Event);
        assert_eq!(d.message.content, vec![9]);
    }
}

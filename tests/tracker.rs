use daemon_core::ids::IdFactory;
use daemon_core::tracker::ObjectTracker;

#[test]
fn ids_increase_from_origin() {
    let mut f = IdFactory::new(5);
    assert_eq!(f.next_id(), Some(5));
    assert_eq!(f.next_id(), Some(6));
    assert!(!f.is_exhausted());
}

#[test]
fn ids_run_out_at_the_top() {
    let mut f = IdFactory::new(u32::MAX);
    assert_eq!(f.next_id(), Some(u32::MAX));
    assert_eq!(f.next_id(), None);
    assert!(f.is_exhausted());
}

#[test]
fn tracked_ids_are_distinct_and_not_reused() {
    let mut t = ObjectTracker::new(1);
    let a = t.track("a").unwrap();
    let b = t.track("b").unwrap();
    assert_ne!(a, b);
    assert!(t.release(a));
    let c = t.track("c").unwrap();
    assert_ne!(c, a);
    assert_ne!(c, b);
    assert_eq!(t.get(b), Some(&"b"));
    assert_eq!(t.get(c), Some(&"c"));
}

#[test]
fn get_after_release_is_not_found() {
    let mut t = ObjectTracker::new(0);
    let a = t.track(10u32).unwrap();
    assert!(t.contains(a));
    assert!(t.release(a));
    assert_eq!(t.get(a), None);
    assert!(!t.contains(a));
}

#[test]
fn release_twice() {
    let mut t = ObjectTracker::new(0);
    let a = t.track(1u8).unwrap();
    assert!(t.release(a));
    assert!(!t.release(a));
    assert!(!t.release(999));
}

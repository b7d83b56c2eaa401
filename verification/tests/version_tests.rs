use std::cmp::Ordering;

use irondb::util::current_time_millis;
use irondb::version::{VectorClock, Versioned};

#[test]
fn test_vector_clock() {
    let a = VectorClock::default();
    let b = VectorClock::default();
    assert!(matches!(a.partial_cmp(&b), Some(Ordering::Equal)));
    let b = b.incremented(0, 1, current_time_millis());
    assert!(matches!(a.partial_cmp(&b), Some(Ordering::Less)));
    assert!(matches!(b.partial_cmp(&a), Some(Ordering::Greater)));
    let a = a.incremented(1, 1, current_time_millis());
    assert!(matches!(a.partial_cmp(&b), None));
    let b = b.incremented(1, 1, current_time_millis());
    let b = b.incremented(0, 1, current_time_millis());
    let b = b.incremented(1, 1, current_time_millis());
    assert!(matches!(b.partial_cmp(&a), Some(Ordering::Greater)));
}

#[test]
fn test_incremented_formula() {
    let c = VectorClock::default().incremented(3, 2, 7);
    assert_eq!(c.versions.get(&3), Some(&2));
    let c2 = c.incremented(3, 5, 9);
    assert_eq!(c2.versions.get(&3), Some(&7));
    // other writer entries stay unchanged
    let c3 = c2.incremented(1, 4, 11);
    assert_eq!(c3.versions.get(&3), Some(&7));
    assert_eq!(c3.versions.get(&1), Some(&4));
    // the receiver is never mutated
    assert_eq!(c2.versions.get(&3), Some(&7));
    assert_eq!(c2.versions.get(&1), None);
}

#[test]
fn test_comparison_outcomes() {
    let t = current_time_millis();
    let empty = VectorClock::default();
    let a = empty.incremented(0, 1, t);
    let b = a.incremented(0, 1, t);
    let c = empty.incremented(1, 1, t);
    assert_eq!(a.partial_cmp(&b), Some(Ordering::Less));
    assert_eq!(b.partial_cmp(&a), Some(Ordering::Greater));
    assert_eq!(a.partial_cmp(&a.clone()), Some(Ordering::Equal));
    assert_eq!(a.partial_cmp(&c), None);
    assert_eq!(c.partial_cmp(&a), None);
}

#[test]
fn test_equal_clocks_built_separately() {
    let a = VectorClock::default().incremented(0, 1, 5).incremented(7, 2, 5);
    let b = VectorClock::default().incremented(7, 2, 6).incremented(0, 1, 6);
    assert_eq!(a.partial_cmp(&b), Some(Ordering::Equal));
}

#[test]
fn test_less_than_empty_clock() {
    let t = current_time_millis();
    let empty = VectorClock::default();
    let one = empty.incremented(0, 1, t);
    // a clock with no counters is vacuously below any clock
    assert!(empty.less_than(&one));
    assert!(!one.less_than(&empty));
    // the vacuous relation also holds between two empty clocks, but the
    // comparison decides equality first
    assert!(empty.less_than(&VectorClock::default()));
    assert_eq!(empty.partial_cmp(&VectorClock::default()), Some(Ordering::Equal));
}

#[test]
fn test_clock_wire_round_trip() {
    let c = VectorClock::default()
        .incremented(2, 3, 10)
        .incremented(0, 1, 11)
        .incremented(2, 4, 12);
    let entries = c.to_entries();
    assert_eq!(entries, vec![(0u16, 1u64), (2u16, 7u64)]);
    let rebuilt = VectorClock::from_entries(&entries, 99);
    assert_eq!(rebuilt.partial_cmp(&c), Some(Ordering::Equal));
    // an empty wire form denotes the empty clock
    let empty = VectorClock::from_entries(&Vec::new(), 0);
    assert_eq!(empty.partial_cmp(&VectorClock::default()), Some(Ordering::Equal));
}

#[test]
fn test_compare_versions() {
    let t = current_time_millis();
    let v1 = Versioned::new(String::from("a"));
    let v2 = Versioned::with_version(v1.version.incremented(0, 1, t), String::from("b"));
    assert_eq!(v1.compare_versions(&v2), Some(Ordering::Less));
    assert_eq!(v2.compare_versions(&v1), Some(Ordering::Greater));
    let v3 = Versioned::from(v2);
    assert_eq!(v3.value, String::from("b"));
    assert_eq!(v3.compare_versions(&v1), Some(Ordering::Greater));
}

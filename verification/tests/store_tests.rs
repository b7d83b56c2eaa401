use std::cmp::Ordering;

use irondb::store::{InMemoryStore, StoreError};
use irondb::util;
use irondb::version::{VectorClock, Versioned};

#[test]
fn test_stale_put() {
    let mut store = InMemoryStore::new();
    let put_res = store.put("foo".to_string(), Versioned::new("bar".to_string()));
    assert!(put_res.is_ok(), "first put should succeed");
    let put_res = store.put("foo".to_string(), Versioned::new("quux".to_string()));
    assert!(put_res.is_err(), "should log an error if same version used");
}

#[test]
fn test_put_with_greater_version() {
    let mut store = InMemoryStore::new();
    let key = String::from("bar");
    let val_and_ver = Versioned::new(String::from("foo"));
    let put_res = store.put(key.clone(), val_and_ver.clone());
    assert!(put_res.is_ok(), "first put should succeed");
    let new_ver = val_and_ver
        .version
        .incremented(0, 1u64, util::current_time_millis());
    let val_and_ver = Versioned::with_version(new_ver, String::from("quux"));
    let put_res = store.put(key, val_and_ver);
    assert!(put_res.is_ok(), "can overwrite with a larger value");
    let results = store.get("bar".to_string()).unwrap();
    assert_eq!(results[0].value, String::from("quux"));
}

#[test]
fn test_first_write_returns_empty_previous() {
    let mut store = InMemoryStore::new();
    let prev = store
        .put("foo".to_string(), Versioned::new("bar".to_string()))
        .unwrap();
    assert!(prev.is_empty());
    let results = store.get("foo".to_string()).unwrap();
    assert_eq!(results.len(), 1);
    assert_eq!(results[0].value, "bar");
    assert!(results[0].version.versions.is_empty());
}

#[test]
fn test_fresh_clock_after_first_write_is_stale() {
    let mut store = InMemoryStore::new();
    store
        .put("foo".to_string(), Versioned::new("bar".to_string()))
        .unwrap();
    // a second write with no causal history is dominated: two clocks with
    // no counters compare equal
    let err = store
        .put("foo".to_string(), Versioned::new("quux".to_string()))
        .unwrap_err();
    match err {
        StoreError::StaleWrite { dominating } => assert!(dominating.versions.is_empty()),
        other => panic!("expected a stale write, got {:?}", other),
    }
    // the stored value is unchanged
    let results = store.get("foo".to_string()).unwrap();
    assert_eq!(results.len(), 1);
    assert_eq!(results[0].value, "bar");
}

#[test]
fn test_incremented_clock_replaces_value() {
    let mut store = InMemoryStore::new();
    store
        .put("foo".to_string(), Versioned::new("bar".to_string()))
        .unwrap();
    let clock0 = store.get("foo".to_string()).unwrap()[0].version.clone();
    let clock1 = clock0.incremented(0, 1, util::current_time_millis());
    store
        .put(
            "foo".to_string(),
            Versioned::with_version(clock1.clone(), "quux".to_string()),
        )
        .unwrap();
    let results = store.get("foo".to_string()).unwrap();
    assert_eq!(results.len(), 1);
    assert_eq!(results[0].value, "quux");
    assert_eq!(results[0].version.partial_cmp(&clock1), Some(Ordering::Equal));
}

#[test]
fn test_concurrent_writes_kept_as_siblings() {
    let mut store = InMemoryStore::new();
    let base = Versioned::new("base".to_string());
    store.put("k".to_string(), base.clone()).unwrap();
    let c1 = base.version.incremented(1, 1, util::current_time_millis());
    let c2 = base.version.incremented(2, 1, util::current_time_millis());
    let prev = store
        .put("k".to_string(), Versioned::with_version(c1, "one".to_string()))
        .unwrap();
    assert_eq!(prev.len(), 1);
    assert_eq!(prev[0].value, "base");
    store
        .put("k".to_string(), Versioned::with_version(c2, "two".to_string()))
        .unwrap();
    let mut values: Vec<String> = store
        .get("k".to_string())
        .unwrap()
        .into_iter()
        .map(|v| v.value)
        .collect();
    values.sort();
    assert_eq!(values, vec!["one".to_string(), "two".to_string()]);
}

#[test]
fn test_stale_write_reports_dominating_clock() {
    let mut store = InMemoryStore::new();
    let t = util::current_time_millis();
    let c2 = VectorClock::default().incremented(0, 2, t);
    store
        .put(
            "k".to_string(),
            Versioned::with_version(c2.clone(), "new".to_string()),
        )
        .unwrap();
    let c1 = VectorClock::default().incremented(0, 1, t);
    let err = store
        .put("k".to_string(), Versioned::with_version(c1, "old".to_string()))
        .unwrap_err();
    match err {
        StoreError::StaleWrite { dominating } => {
            assert_eq!(dominating.partial_cmp(&c2), Some(Ordering::Equal));
        }
        other => panic!("expected a stale write, got {:?}", other),
    }
}

#[test]
fn test_get_idempotent() {
    let mut store = InMemoryStore::new();
    store
        .put("k".to_string(), Versioned::new("v".to_string()))
        .unwrap();
    let r1 = store.get("k".to_string()).unwrap();
    let r2 = store.get("k".to_string()).unwrap();
    assert_eq!(r1.len(), r2.len());
    for (a, b) in r1.iter().zip(r2.iter()) {
        assert_eq!(a.value, b.value);
        assert_eq!(a.version.partial_cmp(&b.version), Some(Ordering::Equal));
    }
    // unknown keys read as empty, repeatedly, and that is not an error
    assert!(store.get("missing".to_string()).unwrap().is_empty());
    assert!(store.get("missing".to_string()).unwrap().is_empty());
}

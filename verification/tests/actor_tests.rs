use irondb::actor::{handle, StoreRequest, StoreResponse};
use irondb::store::InMemoryStore;
use irondb::version::Versioned;

#[test]
fn test_handle_put_then_get() {
    let mut store = InMemoryStore::new();
    let resp = handle(
        &mut store,
        StoreRequest::Put {
            key: "k".to_string(),
            value: Versioned::new("v".to_string()),
        },
    );
    match resp {
        StoreResponse::Put(r) => assert!(r.unwrap().is_empty()),
        other => panic!("expected a put reply, got {:?}", other),
    }
    let resp = handle(
        &mut store,
        StoreRequest::Get {
            key: "k".to_string(),
        },
    );
    match resp {
        StoreResponse::Get(r) => {
            let siblings = r.unwrap();
            assert_eq!(siblings.len(), 1);
            assert_eq!(siblings[0].value, "v");
        }
        other => panic!("expected a get reply, got {:?}", other),
    }
}

#[test]
fn test_distinct_keys_match_sequential_reference() {
    let n = 8;
    let mut actor_store = InMemoryStore::new();
    for i in 0..n {
        let resp = handle(
            &mut actor_store,
            StoreRequest::Put {
                key: format!("key-{}", i),
                value: Versioned::new(format!("value-{}", i)),
            },
        );
        match resp {
            StoreResponse::Put(r) => assert!(r.is_ok()),
            other => panic!("expected a put reply, got {:?}", other),
        }
    }
    // each key's final siblings match what a store that saw only that key's
    // write holds
    for i in 0..n {
        let mut reference = InMemoryStore::new();
        reference
            .put(format!("key-{}", i), Versioned::new(format!("value-{}", i)))
            .unwrap();
        let got = actor_store.get(format!("key-{}", i)).unwrap();
        let want = reference.get(format!("key-{}", i)).unwrap();
        assert_eq!(got.len(), want.len());
        assert_eq!(got[0].value, want[0].value);
    }
}

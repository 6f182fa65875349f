//! The exclusion store: variance queries, adds, and the byte-length
//! persistence heuristic.

use std::collections::HashMap;

use covin_backend::alert_session::AlertSession;
use covin_backend::exclusion::{ExclusionEntry, ExclusionMap, UserRecord};

fn alert_session(session_id: &str, capacity: u64) -> AlertSession {
    AlertSession { center_index: 0, session_index: 0, session_id: session_id.to_string(), capacity }
}

#[test]
fn test_exclusion_map() {
    let mut exclusion_map = ExclusionMap::new();
    let user_id = "some-user-id".to_string();

    // Variance should be true when
    // the session id doesn't already exists for user in exclusion_map
    assert_eq!(
        exclusion_map.any_variance(&user_id, &"session-id-1".to_string(), 1000),
        true
    );

    let sessions_1 = vec![alert_session("session-id-1", 1000)];
    exclusion_map.add(&user_id, &sessions_1);

    // Variance should be false, when
    // the session id exists in the exclusion_map and no change in the capacity
    assert_eq!(
        exclusion_map.any_variance(&user_id, &"session-id-1".to_string(), 1000),
        false
    );

    let sessions_2 = vec![alert_session("session-id-1", 5000)];
    exclusion_map.add(&user_id, &sessions_2);

    // Variance should be true, when there is change in capacity
    assert_eq!(
        exclusion_map.any_variance(&user_id, &"session-id-1".to_string(), 1000),
        true
    );

    let sessions_3 = vec![alert_session("session-id-2", 5000)];
    exclusion_map.add(&user_id, &sessions_3);

    // Variance should be false, when there is new session added
    // and previously added session should remain for the user!
    assert_eq!(
        exclusion_map.any_variance(&user_id, &"session-id-1".to_string(), 5000),
        false
    );

    // Newly added session should also remain
    assert_eq!(
        exclusion_map.any_variance(&user_id, &"session-id-2".to_string(), 5000),
        false
    );
}

#[test]
fn variance_is_per_user() {
    let mut exclusion_map = ExclusionMap::new();
    let user_a = "user-a".to_string();
    let user_b = "user-b".to_string();
    exclusion_map.add(&user_a, &vec![alert_session("shared-session", 2000)]);
    // The record belongs to user-a alone; user-b still sees variance.
    assert!(!exclusion_map.any_variance(&user_a, &"shared-session".to_string(), 2000));
    assert!(exclusion_map.any_variance(&user_b, &"shared-session".to_string(), 2000));
    // A capacity change in either direction is a variance for user-a.
    assert!(exclusion_map.any_variance(&user_a, &"shared-session".to_string(), 1000));
    assert!(exclusion_map.any_variance(&user_a, &"shared-session".to_string(), 3000));
}

#[test]
fn encode_is_the_documented_json_object() {
    let entries = vec![
        UserRecord {
            user_id: "user-1".to_string(),
            sessions: vec![
                ExclusionEntry { session_id: "sess-1".to_string(), capacity: 1000 },
                ExclusionEntry { session_id: "sess-2".to_string(), capacity: 0 },
            ],
        },
        UserRecord {
            user_id: "user-2".to_string(),
            sessions: vec![ExclusionEntry { session_id: "sess-3".to_string(), capacity: 42 }],
        },
    ];
    let map = ExclusionMap::from_loaded(entries, 0);
    let payload = map.encode();
    assert_eq!(
        payload,
        "{\"user-1\":[[\"sess-1\",1000],[\"sess-2\",0]],\"user-2\":[[\"sess-3\",42]]}"
    );
}

#[test]
fn encode_escapes_and_round_trips_through_json() {
    let entries = vec![UserRecord {
        user_id: "we\"ird\\user\n".to_string(),
        sessions: vec![ExclusionEntry { session_id: "s-1".to_string(), capacity: 7 }],
    }];
    let map = ExclusionMap::from_loaded(entries, 0);
    let payload = map.encode();
    let parsed: HashMap<String, Vec<(String, u64)>> = serde_json::from_str(&payload).unwrap();
    assert_eq!(parsed.len(), 1);
    assert_eq!(parsed["we\"ird\\user\n"], vec![("s-1".to_string(), 7)]);
}

#[test]
fn empty_store_encodes_to_empty_object() {
    let map = ExclusionMap::new();
    assert_eq!(map.encode(), "{}");
}

#[test]
fn store_skipped_when_byte_length_unchanged() {
    // A store loaded from a blob of the same byte length as its current
    // serialization is not written again...
    let entries = vec![UserRecord {
        user_id: "u".to_string(),
        sessions: vec![ExclusionEntry { session_id: "s".to_string(), capacity: 1 }],
    }];
    let baseline = ExclusionMap::from_loaded(entries.clone(), 0).encode().len();
    let unchanged = ExclusionMap::from_loaded(entries.clone(), baseline);
    assert!(unchanged.store_payload().is_none());

    // ...even when the content differs, as long as the byte length agrees:
    // the heuristic is deliberately approximate.
    let different = vec![UserRecord {
        user_id: "u".to_string(),
        sessions: vec![ExclusionEntry { session_id: "s".to_string(), capacity: 2 }],
    }];
    let equal_length = ExclusionMap::from_loaded(different, baseline);
    assert_ne!(equal_length.encode(), ExclusionMap::from_loaded(entries, baseline).encode());
    assert!(equal_length.store_payload().is_none());
}

#[test]
fn store_written_when_byte_length_changed() {
    let mut map = ExclusionMap::from_loaded(Vec::new(), 2);
    // "{}" has byte length 2: nothing to write yet.
    assert!(map.store_payload().is_none());
    map.add(&"user-9".to_string(), &vec![alert_session("sess-9", 3000)]);
    let payload = map.store_payload().expect("a grown store must be written");
    assert_eq!(payload, "{\"user-9\":[[\"sess-9\",3000]]}");
}

#[test]
fn persisted_text_decodes_back_to_the_same_store() {
    let entries = vec![
        UserRecord {
            user_id: "we\"ird\\user\n".to_string(),
            sessions: vec![
                ExclusionEntry { session_id: "s-1".to_string(), capacity: 0 },
                ExclusionEntry { session_id: "s-2".to_string(), capacity: 18446744073709551615 },
            ],
        },
        UserRecord { user_id: "empty-user".to_string(), sessions: Vec::new() },
    ];
    let map = ExclusionMap::from_loaded(entries.clone(), 0);
    let payload = map.encode();
    let decoded = covin_backend::exclusion::decode_store(&payload).expect("own text parses");
    assert_eq!(decoded, entries);

    // A store rebuilt from its own blob re-encodes to the same byte
    // length, so the change heuristic skips the write.
    let reloaded = ExclusionMap::from_blob(&payload, payload.len());
    assert!(reloaded.store_payload().is_none());
}

#[test]
fn foreign_or_malformed_blobs_load_as_empty() {
    for text in [
        "",
        "{",
        "nonsense",
        "{\"u\":[[\"s\",1.5]]}",
        "{ \"u\": [] }",
        "{\"u\":[[\"s\",01]]}",
        "{\"u\":[[\"s\",1]],}",
    ] {
        assert!(covin_backend::exclusion::decode_store(text).is_none());
        let map = ExclusionMap::from_blob(text, text.len());
        assert_eq!(map.encode(), "{}");
    }
}

#[test]
fn hand_written_canonical_blob_decodes() {
    // Not produced by encode: written out by hand in the persisted layout.
    let text = "{\"u-1\":[[\"s-1\",5],[\"s-2\",1000]],\"u-2\":[]}";
    let decoded = covin_backend::exclusion::decode_store(text).expect("canonical text parses");
    assert_eq!(decoded.len(), 2);
    assert_eq!(decoded[0].user_id, "u-1");
    assert_eq!(decoded[0].sessions.len(), 2);
    assert_eq!(decoded[0].sessions[1].session_id, "s-2");
    assert_eq!(decoded[0].sessions[1].capacity, 1000);
    assert_eq!(decoded[1].user_id, "u-2");
    assert!(decoded[1].sessions.is_empty());
    // Loading it and storing against its own byte length is a no-op.
    let map = ExclusionMap::from_blob(text, text.len());
    assert!(map.store_payload().is_none());
    assert_eq!(map.encode(), text);
}

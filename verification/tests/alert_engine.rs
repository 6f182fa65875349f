//! End-to-end passes of the engine orchestrator, driven event by event.

use std::collections::HashMap;

use covin_backend::alerts::{AlertFilter, DoseFilter};
use covin_backend::centers::{Center, CenterResponse, Session};
use covin_backend::engine::{AlertEngine, EngineAction, EngineEvent};
use covin_backend::exclusion::ExclusionMap;

fn dummy_session(n: u32, min_age: u16, total: u64, dose1: u64, dose2: u64) -> Session {
    Session {
        session_id: format!("dummy-session-id-{}", n),
        available_capacity: total,
        min_age_limit: min_age,
        date: "12-01-2021".to_string(),
        slots: Vec::new(),
        available_capacity_dose1: dose1,
        available_capacity_dose2: dose2,
    }
}

fn fixture_response() -> CenterResponse {
    CenterResponse {
        centers: vec![Center {
            center_id: 1,
            name: "Dummy Center Name 1".to_string(),
            state_name: String::new(),
            district_name: String::new(),
            block_name: String::new(),
            pincode: 0,
            from: String::new(),
            to: String::new(),
            fee_type: String::new(),
            sessions: vec![
                dummy_session(1, 18, 0, 0, 0),
                dummy_session(2, 45, 0, 0, 0),
                dummy_session(3, 18, 1000, 1000, 0),
                dummy_session(4, 45, 1000, 1000, 0),
                dummy_session(5, 18, 1000, 1000, 0),
                dummy_session(6, 18, 1000, 0, 1000),
            ],
        }],
    }
}

fn fixture_alerts() -> Vec<AlertFilter> {
    vec![
        AlertFilter {
            user_id: "dummy-user-1".to_string(),
            age: Some(18),
            centers: Some(vec![1, 2, 3]),
            district_id: 1,
            dose: DoseFilter::Any,
            email: "dummy-1@email.com".to_string(),
            mobile_no: None,
        },
        AlertFilter {
            user_id: "dummy-user-2".to_string(),
            age: Some(45),
            centers: Some(vec![1, 2, 3]),
            district_id: 1,
            dose: DoseFilter::Any,
            email: "dummy-2@email.com".to_string(),
            mobile_no: None,
        },
        AlertFilter {
            user_id: "dummy-user-3".to_string(),
            age: None,
            centers: None,
            district_id: 1,
            dose: DoseFilter::Any,
            email: "dummy-3@email.com".to_string(),
            mobile_no: None,
        },
        AlertFilter {
            user_id: "dummy-user-4".to_string(),
            age: None,
            centers: None,
            district_id: 1,
            dose: DoseFilter::First,
            email: "dummy-4@email.com".to_string(),
            mobile_no: None,
        },
        AlertFilter {
            user_id: "dummy-user-5".to_string(),
            age: None,
            centers: None,
            district_id: 1,
            dose: DoseFilter::Second,
            email: "dummy-5@email.com".to_string(),
            mobile_no: None,
        },
    ]
}

/// Renders a pending notification the way the reference fixture does: one
/// line per matched session id, in match order.
fn render_pending(engine: &AlertEngine) -> String {
    let pending = engine.pending.as_ref().expect("a Notify action leaves a pending notification");
    let mut content = String::new();
    for alert_session in &pending.sessions {
        content.push_str(&alert_session.session_id);
        content.push('\n');
    }
    content
}

#[test]
fn test_alert_engine() {
    let mut engine = AlertEngine::new(fixture_alerts(), ExclusionMap::new());
    let mut email_map = HashMap::<String, String>::new();

    let mut action = engine.start();
    match action {
        EngineAction::Fetch { district_id } => assert_eq!(district_id, 1),
        _ => panic!("the pass must start by fetching district 1"),
    }
    action = engine.step(EngineEvent::Fetched { response: Some(fixture_response()) });
    let mut sent: u32 = 0;
    loop {
        match action {
            EngineAction::Notify { email, .. } => {
                email_map.insert(email, render_pending(&engine));
                sent += 1;
                assert!(sent <= 5, "no more than one notification per subscription");
                action = engine.step(EngineEvent::Notified { ok: true });
            }
            EngineAction::Persist { payload } => {
                assert!(payload.is_some(), "a grown store must be written");
                action = engine.step(EngineEvent::Persisted { ok: true });
            }
            EngineAction::Done { ok } => {
                assert!(ok);
                break;
            }
            EngineAction::Fetch { .. } => panic!("only one district in the fixture"),
        }
    }

    let mut expected_email_map = HashMap::<String, String>::new();
    expected_email_map.insert(
        "dummy-1@email.com".to_string(),
        "dummy-session-id-3\ndummy-session-id-5\ndummy-session-id-6\n".to_string(),
    );
    expected_email_map.insert(
        "dummy-2@email.com".to_string(),
        "dummy-session-id-3\ndummy-session-id-4\ndummy-session-id-5\ndummy-session-id-6\n"
            .to_string(),
    );
    expected_email_map.insert(
        "dummy-3@email.com".to_string(),
        "dummy-session-id-3\ndummy-session-id-4\ndummy-session-id-5\ndummy-session-id-6\n"
            .to_string(),
    );
    expected_email_map.insert(
        "dummy-4@email.com".to_string(),
        "dummy-session-id-3\ndummy-session-id-4\ndummy-session-id-5\n".to_string(),
    );
    expected_email_map.insert(
        "dummy-5@email.com".to_string(),
        "dummy-session-id-6\n".to_string(),
    );

    assert_eq!(email_map, expected_email_map);
}

#[test]
fn failed_fetch_skips_the_district_and_the_pass_goes_on() {
    let mut alerts = fixture_alerts();
    // A second district after the fixture's district 1.
    alerts.push(AlertFilter {
        user_id: "other-user".to_string(),
        age: None,
        centers: None,
        district_id: 2,
        dose: DoseFilter::Any,
        email: "other@email.com".to_string(),
        mobile_no: None,
    });
    let mut engine = AlertEngine::new(alerts, ExclusionMap::new());
    match engine.start() {
        EngineAction::Fetch { district_id } => assert_eq!(district_id, 1),
        _ => panic!("the pass must start with a fetch"),
    }
    // District 1's fetch fails: the engine moves on to district 2.
    match engine.step(EngineEvent::Fetched { response: None }) {
        EngineAction::Fetch { district_id } => assert_eq!(district_id, 2),
        _ => panic!("a failed fetch must not abort the pass"),
    }
    // District 2's fetch fails too: nothing was notified, nothing was
    // recorded, and the empty store (byte length 0 at load) still differs
    // from its serialization "{}", so a write is due.
    match engine.step(EngineEvent::Fetched { response: None }) {
        EngineAction::Persist { payload } => assert_eq!(payload.as_deref(), Some("{}")),
        _ => panic!("after the last district the store is persisted"),
    }
    match engine.step(EngineEvent::Persisted { ok: true }) {
        EngineAction::Done { ok } => assert!(ok),
        _ => panic!("the pass ends after persisting"),
    }
}

#[test]
fn failed_send_aborts_the_pass_at_once() {
    let mut engine = AlertEngine::new(fixture_alerts(), ExclusionMap::new());
    engine.start();
    let action = engine.step(EngineEvent::Fetched { response: Some(fixture_response()) });
    assert!(matches!(action, EngineAction::Notify { .. }));
    match engine.step(EngineEvent::Notified { ok: false }) {
        EngineAction::Done { ok } => assert!(!ok),
        _ => panic!("a failed send must abort the remaining pass"),
    }
    // The failed send was not recorded: the store is still empty.
    assert_eq!(engine.exclusion.encode(), "{}");
}

#[test]
fn empty_subscription_list_goes_straight_to_persistence() {
    let engine = AlertEngine::new(Vec::new(), ExclusionMap::new());
    match engine.start() {
        // "{}" (2 bytes) differs from the loaded length 0.
        EngineAction::Persist { payload } => assert_eq!(payload.as_deref(), Some("{}")),
        _ => panic!("nothing to fetch without subscriptions"),
    }
}

#[test]
fn exclusions_recorded_only_after_confirmed_sends() {
    let mut engine = AlertEngine::new(fixture_alerts(), ExclusionMap::new());
    engine.start();
    let mut action = engine.step(EngineEvent::Fetched { response: Some(fixture_response()) });
    // Before any confirmation the store is untouched.
    assert_eq!(engine.exclusion.encode(), "{}");
    let mut notified: u32 = 0;
    while let EngineAction::Notify { .. } = action {
        action = engine.step(EngineEvent::Notified { ok: true });
        notified += 1;
    }
    assert_eq!(notified, 5);
    // Every confirmed user is on record with the dose-relevant capacity.
    let encoded = engine.exclusion.encode();
    for user in 1..=5 {
        assert!(encoded.contains(&format!("dummy-user-{}", user)));
    }
    assert!(encoded.contains("[\"dummy-session-id-6\",1000]"));
}

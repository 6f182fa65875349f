//! The matching engine's filters: dose capacity, age, named centers, and
//! the center-level availability pre-filter.

use covin_backend::alerts::{AlertFilter, DoseFilter};
use covin_backend::centers::{build_center_lookup, Center, Session, CAPACITY_UNIT};
use covin_backend::exclusion::ExclusionMap;
use covin_backend::matching::match_subscription;

fn session(id: &str, min_age: u16, total: u64, dose1: u64, dose2: u64) -> Session {
    Session {
        session_id: id.to_string(),
        available_capacity: total,
        min_age_limit: min_age,
        date: "12-01-2021".to_string(),
        slots: Vec::new(),
        available_capacity_dose1: dose1,
        available_capacity_dose2: dose2,
    }
}

fn center(id: u32, sessions: Vec<Session>) -> Center {
    Center {
        center_id: id,
        name: format!("Center {}", id),
        state_name: "Kerala".to_string(),
        district_name: "Dummy District".to_string(),
        block_name: "Dummy Block".to_string(),
        pincode: 612343,
        from: "09:00:00".to_string(),
        to: "17:00:00".to_string(),
        fee_type: "Free".to_string(),
        sessions,
    }
}

fn subscription(user: &str, centers: Option<Vec<u32>>, age: Option<u16>, dose: DoseFilter) -> AlertFilter {
    AlertFilter {
        user_id: user.to_string(),
        district_id: 1,
        centers,
        email: format!("{}@email.com", user),
        mobile_no: None,
        age,
        dose,
    }
}

fn matched_ids(out: &[covin_backend::alert_session::AlertSession]) -> Vec<String> {
    let mut ids: Vec<String> = out.iter().map(|a| a.session_id.clone()).collect();
    ids.sort();
    ids
}

#[test]
fn dose_capacity_below_one_slot_never_matches() {
    // Dose-1 capacity is below one whole slot everywhere; a first-dose
    // subscription matches nothing, whatever age or exclusion state.
    let lookup = build_center_lookup(vec![center(
        1,
        vec![session("s-1", 18, 5000, 999, 5000), session("s-2", 18, 5000, 0, 5000)],
    )]);
    let excl = ExclusionMap::new();
    let sub = subscription("u1", None, None, DoseFilter::First);
    let out = match_subscription(&sub, &lookup, &excl);
    assert!(out.is_empty());
    // The same sessions match a second-dose subscription.
    let sub2 = subscription("u1", None, None, DoseFilter::Second);
    let out2 = match_subscription(&sub2, &lookup, &excl);
    assert_eq!(matched_ids(&out2), vec!["s-1".to_string(), "s-2".to_string()]);
}

#[test]
fn matched_sessions_respect_the_age_limit() {
    let lookup = build_center_lookup(vec![center(
        1,
        vec![session("s-18", 18, 2000, 2000, 0), session("s-45", 45, 2000, 2000, 0)],
    )]);
    let excl = ExclusionMap::new();
    let sub = subscription("u1", None, Some(18), DoseFilter::Any);
    let out = match_subscription(&sub, &lookup, &excl);
    assert_eq!(matched_ids(&out), vec!["s-18".to_string()]);
    // No stated age: both sessions match.
    let sub2 = subscription("u1", None, None, DoseFilter::Any);
    let out2 = match_subscription(&sub2, &lookup, &excl);
    assert_eq!(matched_ids(&out2), vec!["s-18".to_string(), "s-45".to_string()]);
}

#[test]
fn centers_absent_from_the_snapshot_yield_zero_matches() {
    let lookup = build_center_lookup(vec![center(1, vec![session("s-1", 18, 2000, 2000, 0)])]);
    let excl = ExclusionMap::new();
    // Only absent ids named: zero matches, no error.
    let sub = subscription("u1", Some(vec![97, 98, 99]), None, DoseFilter::Any);
    let out = match_subscription(&sub, &lookup, &excl);
    assert!(out.is_empty());
    // An absent id beside a present one: only the present one contributes.
    let sub2 = subscription("u1", Some(vec![99, 1]), None, DoseFilter::Any);
    let out2 = match_subscription(&sub2, &lookup, &excl);
    assert_eq!(matched_ids(&out2), vec!["s-1".to_string()]);
}

#[test]
fn zero_total_capacity_center_is_dropped_before_matching() {
    // Total capacity is zero in every session of center 1, though its
    // dose-1 counts would pass the dose filter: the center-level
    // pre-filter drops it entirely.
    let dead = center(1, vec![session("s-1", 18, 0, 2000, 0)]);
    let fractional = center(2, vec![session("s-2", 18, 500, 2000, 0)]);
    let live = center(3, vec![session("s-2b", 18, 1500, 0, 0)]);
    let lookup = build_center_lookup(vec![dead, fractional, live]);
    assert_eq!(lookup.len(), 1);
    assert_eq!(lookup[0].center_id, 3);

    // Within a qualifying center, sessions are still filtered one by one:
    // a session with zero total but passing dose count stays matchable
    // when another session qualifies the center.
    let mixed = center(
        4,
        vec![session("s-3", 18, 1000, 1000, 0), session("s-4", 18, 0, 3000, 0)],
    );
    let lookup2 = build_center_lookup(vec![mixed]);
    assert_eq!(lookup2.len(), 1);
    let excl = ExclusionMap::new();
    let sub = subscription("u1", None, None, DoseFilter::First);
    let out = match_subscription(&sub, &lookup2, &excl);
    assert_eq!(matched_ids(&out), vec!["s-3".to_string(), "s-4".to_string()]);
}

#[test]
fn duplicate_center_ids_keep_the_last_available_report() {
    let first = center(1, vec![session("old", 18, 2000, 2000, 0)]);
    let second = center(1, vec![session("new", 18, 2000, 2000, 0)]);
    let lookup = build_center_lookup(vec![first, second]);
    assert_eq!(lookup.len(), 1);
    assert_eq!(lookup[0].sessions[0].session_id, "new");
}

#[test]
fn suppression_uses_the_dose_relevant_capacity() {
    let lookup = build_center_lookup(vec![center(
        1,
        vec![session("s-1", 18, 9000, 4000, 0)],
    )]);
    let mut excl = ExclusionMap::new();
    let sub = subscription("u1", None, None, DoseFilter::First);
    let out = match_subscription(&sub, &lookup, &excl);
    assert_eq!(out.len(), 1);
    // The recorded capacity is the dose-selected one, not the total.
    assert_eq!(out[0].capacity, 4000);
    excl.add(&sub.user_id, &out);
    // Unchanged dose capacity: suppressed.
    let again = match_subscription(&sub, &lookup, &excl);
    assert!(again.is_empty());
    // The threshold itself: exactly one whole slot passes.
    assert_eq!(CAPACITY_UNIT, 1000);
}

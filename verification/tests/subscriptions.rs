//! Subscription payloads: validation, conversions, and the bearer-header
//! shape check.

use covin_backend::alerts::{Alert, AlertFilter, AlertPayload, DoseFilter};
use covin_backend::auth::{AuthClaims, AuthError, PrivateClaims};
use covin_backend::validation::{validate_alert_payload, ValidationError};

fn payload() -> AlertPayload {
    AlertPayload {
        district_id: 123,
        centers: Some(vec![1231, 1232, 1233, 1234]),
        email: "dummy@email.com".to_string(),
        mobile_no: Some("+919123456789".to_string()),
        age: Some(18),
        dose: DoseFilter::Any,
    }
}

#[test]
fn valid_payload_is_accepted() {
    assert_eq!(validate_alert_payload(&payload()), Ok(()));
    // Optional fields may all be absent.
    let bare = AlertPayload { centers: None, mobile_no: None, age: None, ..payload() };
    assert_eq!(validate_alert_payload(&bare), Ok(()));
}

#[test]
fn empty_or_oversized_center_list_is_rejected() {
    let empty = AlertPayload { centers: Some(Vec::new()), ..payload() };
    assert_eq!(validate_alert_payload(&empty), Err(ValidationError::Centers));
    let oversized = AlertPayload { centers: Some((1..=21).collect()), ..payload() };
    assert_eq!(validate_alert_payload(&oversized), Err(ValidationError::Centers));
    let at_cap = AlertPayload { centers: Some((1..=20).collect()), ..payload() };
    assert_eq!(validate_alert_payload(&at_cap), Ok(()));
}

#[test]
fn invalid_email_is_rejected() {
    let bad = AlertPayload { email: "not-an-email".to_string(), ..payload() };
    assert_eq!(validate_alert_payload(&bad), Err(ValidationError::Email));
    let empty = AlertPayload { email: String::new(), ..payload() };
    assert_eq!(validate_alert_payload(&empty), Err(ValidationError::Email));
}

#[test]
fn invalid_phone_number_is_rejected() {
    let bad = AlertPayload { mobile_no: Some("12345".to_string()), ..payload() };
    assert_eq!(validate_alert_payload(&bad), Err(ValidationError::MobileNo));
    let good = AlertPayload { mobile_no: Some("+14152370800".to_string()), ..payload() };
    assert_eq!(validate_alert_payload(&good), Ok(()));
}

#[test]
fn underage_subscription_is_rejected() {
    let underage = AlertPayload { age: Some(17), ..payload() };
    assert_eq!(validate_alert_payload(&underage), Err(ValidationError::Age));
}

#[test]
fn dose_filter_defaults_to_any() {
    assert_eq!(DoseFilter::default(), DoseFilter::Any);
}

#[test]
fn payload_and_filter_convert_both_ways() {
    let filter = AlertFilter::from_payload(payload(), "user-id-dummy".to_string());
    assert_eq!(filter.user_id, "user-id-dummy");
    assert_eq!(filter.district_id, 123);
    assert_eq!(filter.centers, Some(vec![1231, 1232, 1233, 1234]));
    assert_eq!(filter.email, "dummy@email.com");
    assert_eq!(filter.mobile_no, Some("+919123456789".to_string()));
    assert_eq!(filter.age, Some(18));
    assert_eq!(filter.dose, DoseFilter::Any);
    let back = filter.into_payload();
    assert_eq!(back, payload());
}

#[test]
fn legacy_alert_upgrades_to_a_filter() {
    let alert = Alert {
        user_id: "user-id-dummy".to_string(),
        district_id: 123,
        centers: vec![1231, 1232, 1233],
        email: "dummy@email.com".to_string(),
        mobile_no: Some("+919123456789".to_string()),
        age: 18,
    };
    let filter = AlertFilter::from_legacy(alert);
    assert_eq!(filter.centers, Some(vec![1231, 1232, 1233]));
    assert_eq!(filter.age, Some(18));
    assert_eq!(filter.dose, DoseFilter::Any);
    assert_eq!(filter.user_id, "user-id-dummy");
}

#[test]
fn private_claims_become_auth_claims() {
    let claims = PrivateClaims {
        event_id: "event-1".to_string(),
        scope: "openid".to_string(),
        client_id: "client-1".to_string(),
        username: "user-1".to_string(),
    };
    let auth = AuthClaims::from(claims);
    assert_eq!(auth.user_id, "user-1");
    assert_eq!(auth.client_id, "client-1");
    assert_eq!(auth.event_id, "event-1");
    assert_eq!(auth.scope, "openid");
}

#[test]
fn bearer_tokens_are_extracted_exactly() {
    let ok = AuthClaims::bearer_token(&"Bearer abc.def.ghi".to_string());
    assert_eq!(ok, Ok("abc.def.ghi".to_string()));
    // The empty token is still a well-shaped header; rejecting it is the
    // token verifier's business.
    assert_eq!(AuthClaims::bearer_token(&"Bearer ".to_string()), Ok(String::new()));
    assert_eq!(
        AuthClaims::bearer_token(&"Bearerabc".to_string()),
        Err(AuthError::InvalidCredentials)
    );
    assert_eq!(
        AuthClaims::bearer_token(&"Basic abc".to_string()),
        Err(AuthError::InvalidCredentials)
    );
    assert_eq!(
        AuthClaims::bearer_token(&"Bearer a b".to_string()),
        Err(AuthError::InvalidCredentials)
    );
    assert_eq!(
        AuthClaims::bearer_token(&String::new()),
        Err(AuthError::InvalidCredentials)
    );
}

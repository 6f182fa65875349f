//! Validation of a registered subscription payload: the center list's
//! size, the age floor, and — through the `validator` crate — the email
//! address and the mobile number.

use vstd::prelude::*;

use crate::alerts::AlertPayload;

verus! {

/// A subscriber must be at least this old.
pub const MIN_AGE: u16 = 18;

/// An explicit center list may name at most this many centers.
pub const MAX_CENTERS: usize = 20;

/// What `validator::validate_email` accepts; the result depends on the
/// characters alone.
pub uninterp spec fn email_ok(s: Seq<char>) -> bool;

/// What `validator::validate_phone` accepts; the result depends on the
/// characters alone.
pub uninterp spec fn phone_ok(s: Seq<char>) -> bool;

/// Relies on validator::validate_email: an HTML5-style email check, a pure
/// function of the string, which rejects the empty string.
#[verifier::external_body]
fn check_email(s: &String) -> (r: bool)
    ensures
        r == email_ok(s@),
        s@.len() == 0 ==> !r,
{
    validator::validate_email(s.as_str())
}

/// Relies on validator::validate_phone: an international phone-number
/// check, a pure function of the string.
#[verifier::external_body]
fn check_phone(s: &String) -> (r: bool)
    ensures
        r == phone_ok(s@),
{
    validator::validate_phone(s.as_str())
}

/// Which field of a payload was rejected.
#[derive(Debug, Clone, Copy, PartialEq, Eq, Structural)]
pub enum ValidationError {
    /// The explicit center list is empty or names too many centers.
    Centers,
    /// The email address is not valid.
    Email,
    /// The mobile number is not a valid phone number.
    MobileNo,
    /// The age is below the floor.
    Age,
}

/// The center list, when given, names between one and [`MAX_CENTERS`]
/// centers.
pub open spec fn centers_valid(p: AlertPayload) -> bool {
    match p.centers {
        Some(list) => 1 <= list@.len() <= MAX_CENTERS,
        None => true,
    }
}

/// The mobile number, when given, is a valid phone number.
pub open spec fn mobile_valid(p: AlertPayload) -> bool {
    match p.mobile_no {
        Some(s) => phone_ok(s@),
        None => true,
    }
}

/// The age, when given, is at least [`MIN_AGE`].
pub open spec fn age_valid(p: AlertPayload) -> bool {
    match p.age {
        Some(a) => a >= MIN_AGE,
        None => true,
    }
}

/// A payload is accepted exactly when every constrained field passes.
pub open spec fn payload_valid(p: AlertPayload) -> bool {
    &&& centers_valid(p)
    &&& email_ok(p.email@)
    &&& mobile_valid(p)
    &&& age_valid(p)
}

/// Accepts a payload exactly when every constrained field passes, and
/// otherwise reports the first field (in declaration order) that fails.
pub fn validate_alert_payload(p: &AlertPayload) -> (r: Result<(), ValidationError>)
    ensures
        r is Ok <==> payload_valid(*p),
        r == Err::<(), ValidationError>(ValidationError::Centers) <==> !centers_valid(*p),
        r == Err::<(), ValidationError>(ValidationError::Email) <==> centers_valid(*p) && !email_ok(
            p.email@,
        ),
        r == Err::<(), ValidationError>(ValidationError::MobileNo) <==> centers_valid(*p)
            && email_ok(p.email@) && !mobile_valid(*p),
        r == Err::<(), ValidationError>(ValidationError::Age) <==> centers_valid(*p) && email_ok(
            p.email@,
        ) && mobile_valid(*p) && !age_valid(*p),
{
    match &p.centers {
        Some(list) => {
            if list.len() < 1 || list.len() > MAX_CENTERS {
                return Err(ValidationError::Centers);
            }
        },
        None => {},
    }
    if !check_email(&p.email) {
        return Err(ValidationError::Email);
    }
    match &p.mobile_no {
        Some(s) => {
            if !check_phone(s) {
                return Err(ValidationError::MobileNo);
            }
        },
        None => {},
    }
    match p.age {
        Some(a) => {
            if a < MIN_AGE {
                return Err(ValidationError::Age);
            }
        },
        None => {},
    }
    Ok(())
}

} // verus!

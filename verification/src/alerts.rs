//! Alert subscriptions: what a user asked to be notified about.

use vstd::prelude::*;

verus! {

/// Which capacity field of a session governs matching for a subscription.
#[derive(Debug, Clone, Copy, PartialEq, Eq, Structural)]
pub enum DoseFilter {
    Any,
    First,
    Second,
}

impl Default for DoseFilter {
    /// A subscription that names no dose matches on the total capacity.
    fn default() -> (r: Self)
        ensures
            r == DoseFilter::Any,
    {
        DoseFilter::Any
    }
}

/// The subscription payload as a user registers it: the district to watch,
/// an optional explicit center list, contact details, an optional age and
/// a dose preference.
#[derive(Debug, Clone, PartialEq)]
pub struct AlertPayload {
    pub district_id: u32,
    pub centers: Option<Vec<u32>>,
    pub email: String,
    pub mobile_no: Option<String>,
    pub age: Option<u16>,
    pub dose: DoseFilter,
}

/// A stored subscription: the payload plus the owning user's id.
#[derive(Debug, Clone, PartialEq)]
pub struct AlertFilter {
    pub user_id: String,
    pub district_id: u32,
    pub centers: Option<Vec<u32>>,
    pub email: String,
    pub mobile_no: Option<String>,
    pub age: Option<u16>,
    pub dose: DoseFilter,
}

/// The first-generation subscription record: the center list and the age
/// were mandatory and no dose preference existed yet.
#[derive(Debug, Clone, PartialEq)]
pub struct Alert {
    pub user_id: String,
    pub district_id: u32,
    pub centers: Vec<u32>,
    pub email: String,
    pub mobile_no: Option<String>,
    pub age: u16,
}

impl AlertFilter {
    /// Attaches a user id to a registered payload.
    pub fn from_payload(payload: AlertPayload, user_id: String) -> (r: Self)
        ensures
            r.user_id == user_id,
            r.district_id == payload.district_id,
            r.centers == payload.centers,
            r.email == payload.email,
            r.mobile_no == payload.mobile_no,
            r.age == payload.age,
            r.dose == payload.dose,
    {
        let AlertPayload { district_id, centers, email, mobile_no, age, dose } = payload;
        AlertFilter { user_id, district_id, centers, email, mobile_no, age, dose }
    }

    /// Upgrades a first-generation record: its mandatory center list and age
    /// become explicit constraints, and the dose preference defaults to
    /// matching on total capacity.
    pub fn from_legacy(alert: Alert) -> (r: Self)
        ensures
            r.user_id == alert.user_id,
            r.district_id == alert.district_id,
            r.centers == Some(alert.centers),
            r.email == alert.email,
            r.mobile_no == alert.mobile_no,
            r.age == Some(alert.age),
            r.dose == DoseFilter::Any,
    {
        let Alert { user_id, district_id, centers, email, mobile_no, age } = alert;
        AlertFilter {
            user_id,
            district_id,
            centers: Some(centers),
            email,
            mobile_no,
            age: Some(age),
            dose: DoseFilter::Any,
        }
    }

    /// Strips the user id back off a stored subscription.
    pub fn into_payload(self) -> (r: AlertPayload)
        ensures
            r.district_id == self.district_id,
            r.centers == self.centers,
            r.email == self.email,
            r.mobile_no == self.mobile_no,
            r.age == self.age,
            r.dose == self.dose,
    {
        let AlertFilter { district_id, centers, email, mobile_no, age, dose, .. } = self;
        AlertPayload { district_id, centers, email, mobile_no, age, dose }
    }
}

} // verus!

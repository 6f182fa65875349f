//! A matched session: one session of one center that passed every filter
//! for one subscription.

use vstd::prelude::*;

verus! {

/// One session the engine decided to notify about.  It points into the
/// district's center lookup by index instead of copying the center, and
/// carries the two values the exclusion store needs: the session id and
/// the dose-relevant capacity that was examined.
#[derive(Debug, PartialEq)]
pub struct AlertSession {
    /// Index of the owning center in the district's center lookup.
    pub center_index: usize,
    /// Index of the session within that center's session list.
    pub session_index: usize,
    /// The session's id.
    pub session_id: String,
    /// The capacity the dose filter selected, in thousandths of a slot.
    pub capacity: u64,
}

impl Clone for AlertSession {
    fn clone(&self) -> (r: Self)
        ensures
            r == *self,
    {
        AlertSession {
            center_index: self.center_index,
            session_index: self.session_index,
            session_id: self.session_id.clone(),
            capacity: self.capacity,
        }
    }
}

/// The (session id, capacity) pair that the exclusion store records for
/// a matched session.
pub open spec fn alert_pair(a: AlertSession) -> (Seq<char>, u64) {
    (a.session_id@, a.capacity)
}

/// The pairs that a list of matched sessions hands to the exclusion store.
pub open spec fn alert_pairs(s: Seq<AlertSession>) -> Seq<(Seq<char>, u64)> {
    s.map_values(|a: AlertSession| alert_pair(a))
}

} // verus!

//! The matching engine: for one subscription and one district's
//! availability lookup, decides exactly which sessions to notify about.
//!
//! A session is matched when, and only when, its center is a candidate
//! (named by the subscription, or any center when none are named), the
//! dose-relevant capacity holds at least one whole slot, the subscriber's
//! age meets the session's minimum, and the exclusion store reports a
//! variance for the dose-relevant capacity.

use vstd::prelude::*;

use crate::alert_session::AlertSession;
use crate::alerts::AlertFilter;
use crate::centers::{dose_capacity, spec_dose_capacity, Center, Session, CAPACITY_UNIT};
use crate::exclusion::{spec_any_variance, ExclusionMap};

verus! {

/// The center at position `ci` of the lookup is a candidate for `sub`:
/// always, when the subscription names no centers; otherwise only when its
/// id is named.
pub open spec fn is_candidate(sub: AlertFilter, lookup: Seq<Center>, ci: int) -> bool {
    match sub.centers {
        None => true,
        Some(list) => list@.contains(lookup[ci].center_id),
    }
}

/// The per-session filters: the dose-selected capacity holds a whole slot,
/// the subscriber's age (when given) meets the minimum, and the exclusion
/// store shows variance for that same dose-selected capacity.
pub open spec fn session_passes(
    sub: AlertFilter,
    m: Seq<(Seq<char>, Seq<(Seq<char>, u64)>)>,
    s: Session,
) -> bool {
    &&& spec_dose_capacity(sub.dose, s) >= CAPACITY_UNIT
    &&& match sub.age {
        Some(a) => s.min_age_limit <= a,
        None => true,
    }
    &&& spec_any_variance(m, sub.user_id@, s.session_id@, spec_dose_capacity(sub.dose, s))
}

/// Session `si` of center `ci` in the lookup is matched for `sub` under
/// exclusion state `m`.
pub open spec fn spec_matches(
    sub: AlertFilter,
    lookup: Seq<Center>,
    m: Seq<(Seq<char>, Seq<(Seq<char>, u64)>)>,
    ci: int,
    si: int,
) -> bool {
    &&& 0 <= ci < lookup.len()
    &&& 0 <= si < lookup[ci].sessions@.len()
    &&& is_candidate(sub, lookup, ci)
    &&& session_passes(sub, m, lookup[ci].sessions@[si])
}

/// One output entry is sound: it points at a matched session and carries
/// that session's id and its dose-selected capacity.
pub open spec fn matched_entry_ok(
    sub: AlertFilter,
    lookup: Seq<Center>,
    m: Seq<(Seq<char>, Seq<(Seq<char>, u64)>)>,
    a: AlertSession,
) -> bool {
    &&& spec_matches(sub, lookup, m, a.center_index as int, a.session_index as int)
    &&& a.session_id@ == lookup[a.center_index as int].sessions@[a.session_index as int].session_id@
    &&& a.capacity == spec_dose_capacity(
        sub.dose,
        lookup[a.center_index as int].sessions@[a.session_index as int],
    )
}

/// The output names the session at (ci, si).
pub open spec fn contains_pair(out: Seq<AlertSession>, ci: int, si: int) -> bool {
    exists|k: int|
        0 <= k < out.len() && (#[trigger] out[k]).center_index == ci && out[k].session_index == si
}

/// The matching engine's whole contract: every output entry is a matched
/// session with the right id and capacity, every matched session appears,
/// and no session appears twice.
pub open spec fn match_output_ok(
    sub: AlertFilter,
    lookup: Seq<Center>,
    m: Seq<(Seq<char>, Seq<(Seq<char>, u64)>)>,
    out: Seq<AlertSession>,
) -> bool {
    &&& forall|k: int| 0 <= k < out.len() ==> matched_entry_ok(sub, lookup, m, #[trigger] out[k])
    &&& forall|ci: int, si: int|
        #[trigger] spec_matches(sub, lookup, m, ci, si) ==> contains_pair(out, ci, si)
    &&& forall|k1: int, k2: int|
        0 <= k1 < k2 < out.len() ==> !((#[trigger] out[k1]).center_index == (
        #[trigger] out[k2]).center_index && out[k1].session_index == out[k2].session_index)
}

/// Does the list name this center id?
fn contains_u32(list: &Vec<u32>, x: u32) -> (r: bool)
    ensures
        r == list@.contains(x),
{
    let mut i: usize = 0;
    while i < list.len()
        invariant
            0 <= i <= list@.len(),
            forall|k: int| 0 <= k < i ==> list@[k] != x,
        decreases list@.len() - i,
    {
        if list[i] == x {
            return true;
        }
        i = i + 1;
    }
    false
}

/// Computes the sessions to notify `sub` about, against one district's
/// availability lookup and the current exclusion state: exactly the
/// sessions that pass the candidate, dose, age and variance filters, each
/// listed once.
pub fn match_subscription(sub: &AlertFilter, lookup: &Vec<Center>, excl: &ExclusionMap) -> (out:
    Vec<AlertSession>)
    ensures
        match_output_ok(*sub, lookup@, excl.records(), out@),
{
    let ghost m = excl.records();
    let mut out: Vec<AlertSession> = Vec::new();
    let mut ci: usize = 0;
    while ci < lookup.len()
        invariant
            0 <= ci <= lookup@.len(),
            m == excl.records(),
            forall|k: int|
                0 <= k < out@.len() ==> matched_entry_ok(*sub, lookup@, m, #[trigger] out@[k]),
            forall|k: int| 0 <= k < out@.len() ==> (#[trigger] out@[k]).center_index < ci,
            forall|ci2: int, si2: int|
                0 <= ci2 < ci && #[trigger] spec_matches(*sub, lookup@, m, ci2, si2)
                    ==> contains_pair(out@, ci2, si2),
            forall|k1: int, k2: int|
                0 <= k1 < k2 < out@.len() ==> !((#[trigger] out@[k1]).center_index == (
                #[trigger] out@[k2]).center_index && out@[k1].session_index
                    == out@[k2].session_index),
        decreases lookup@.len() - ci,
    {
        let cand = match &sub.centers {
            None => true,
            Some(list) => contains_u32(list, lookup[ci].center_id),
        };
        proof {
            assert(cand == is_candidate(*sub, lookup@, ci as int));
        }
        if cand {
            let center = &lookup[ci];
            let mut si: usize = 0;
            while si < center.sessions.len()
                invariant
                    0 <= si <= center.sessions@.len(),
                    ci < lookup@.len(),
                    m == excl.records(),
                    *center == lookup@[ci as int],
                    is_candidate(*sub, lookup@, ci as int),
                    forall|k: int|
                        0 <= k < out@.len() ==> matched_entry_ok(
                            *sub,
                            lookup@,
                            m,
                            #[trigger] out@[k],
                        ),
                    forall|k: int|
                        0 <= k < out@.len() ==> (#[trigger] out@[k]).center_index < ci || (
                        out@[k].center_index == ci && out@[k].session_index < si),
                    forall|ci2: int, si2: int|
                        (0 <= ci2 < ci || (ci2 == ci && 0 <= si2 < si)) && #[trigger] spec_matches(
                            *sub,
                            lookup@,
                            m,
                            ci2,
                            si2,
                        ) ==> contains_pair(out@, ci2, si2),
                    forall|k1: int, k2: int|
                        0 <= k1 < k2 < out@.len() ==> !((#[trigger] out@[k1]).center_index == (
                        #[trigger] out@[k2]).center_index && out@[k1].session_index
                            == out@[k2].session_index),
                decreases center.sessions@.len() - si,
            {
                let s = &center.sessions[si];
                let cap = dose_capacity(sub.dose, s);
                let age_ok = match sub.age {
                    Some(a) => s.min_age_limit <= a,
                    None => true,
                };
                if cap >= CAPACITY_UNIT && age_ok && excl.any_variance(
                    &sub.user_id,
                    &s.session_id,
                    cap,
                ) {
                    let ghost old_out = out@;
                    let entry = AlertSession {
                        center_index: ci,
                        session_index: si,
                        session_id: s.session_id.clone(),
                        capacity: cap,
                    };
                    proof {
                        assert(session_passes(*sub, m, lookup@[ci as int].sessions@[si as int]));
                        assert(matched_entry_ok(*sub, lookup@, m, entry));
                    }
                    out.push(entry);
                    proof {
                        assert(out@ =~= old_out.push(entry));
                        assert forall|ci2: int, si2: int|
                            (0 <= ci2 < ci || (ci2 == ci && 0 <= si2 < si + 1))
                                && #[trigger] spec_matches(*sub, lookup@, m, ci2, si2) implies
                        contains_pair(out@, ci2, si2) by {
                            if ci2 == ci as int && si2 == si as int {
                                assert(out@[old_out.len() as int].center_index == ci2
                                    && out@[old_out.len() as int].session_index == si2);
                            } else {
                                let k = choose|k: int|
                                    0 <= k < old_out.len() && (#[trigger] old_out[k]).center_index
                                        == ci2 && old_out[k].session_index == si2;
                                assert(out@[k].center_index == ci2 && out@[k].session_index
                                    == si2);
                            }
                        }
                    }
                } else {
                    proof {
                        assert(!session_passes(*sub, m, lookup@[ci as int].sessions@[si as int]));
                        assert forall|ci2: int, si2: int|
                            (0 <= ci2 < ci || (ci2 == ci && 0 <= si2 < si + 1))
                                && #[trigger] spec_matches(*sub, lookup@, m, ci2, si2) implies
                        contains_pair(out@, ci2, si2) by {}
                    }
                }
                si = si + 1;
            }
            proof {
                assert forall|ci2: int, si2: int|
                    0 <= ci2 < ci + 1 && #[trigger] spec_matches(*sub, lookup@, m, ci2, si2)
                        implies contains_pair(out@, ci2, si2) by {
                    if ci2 == ci as int {
                        assert(si2 < lookup@[ci as int].sessions@.len());
                    }
                }
            }
        } else {
            proof {
                assert forall|ci2: int, si2: int|
                    0 <= ci2 < ci + 1 && #[trigger] spec_matches(*sub, lookup@, m, ci2, si2)
                        implies contains_pair(out@, ci2, si2) by {
                    if ci2 == ci as int {
                        assert(is_candidate(*sub, lookup@, ci2));
                    }
                }
            }
        }
        ci = ci + 1;
    }
    out
}

// ---------------------------------------------------------------------------
// The laws of the matching engine.
// ---------------------------------------------------------------------------

/// A session whose dose-relevant capacity is below one whole slot is never
/// matched, whatever the subscriber's age and whatever the exclusion store
/// holds.
pub proof fn lemma_low_capacity_never_matched(
    sub: AlertFilter,
    lookup: Seq<Center>,
    m: Seq<(Seq<char>, Seq<(Seq<char>, u64)>)>,
    ci: int,
    si: int,
)
    requires
        0 <= ci < lookup.len(),
        0 <= si < lookup[ci].sessions@.len(),
        spec_dose_capacity(sub.dose, lookup[ci].sessions@[si]) < CAPACITY_UNIT,
    ensures
        !spec_matches(sub, lookup, m, ci, si),
{
}

/// No matched session demands a higher minimum age than the subscriber's
/// stated age.
pub proof fn lemma_matched_session_respects_age(
    sub: AlertFilter,
    lookup: Seq<Center>,
    m: Seq<(Seq<char>, Seq<(Seq<char>, u64)>)>,
    ci: int,
    si: int,
    age: u16,
)
    requires
        sub.age == Some(age),
        spec_matches(sub, lookup, m, ci, si),
    ensures
        lookup[ci].sessions@[si].min_age_limit <= age,
{
}

/// A subscription that names centers is matched only against centers it
/// names: an id absent from the lookup contributes nothing, without error.
pub proof fn lemma_match_only_named_centers(
    sub: AlertFilter,
    lookup: Seq<Center>,
    m: Seq<(Seq<char>, Seq<(Seq<char>, u64)>)>,
    ci: int,
    si: int,
    list: Vec<u32>,
)
    requires
        sub.centers == Some(list),
        spec_matches(sub, lookup, m, ci, si),
    ensures
        list@.contains(lookup[ci].center_id),
{
}

/// A matched session always shows variance: the engine never re-notifies a
/// session whose dose-relevant capacity is unchanged since the last
/// notification.
pub proof fn lemma_match_implies_variance(
    sub: AlertFilter,
    lookup: Seq<Center>,
    m: Seq<(Seq<char>, Seq<(Seq<char>, u64)>)>,
    ci: int,
    si: int,
)
    requires
        spec_matches(sub, lookup, m, ci, si),
    ensures
        spec_any_variance(
            m,
            sub.user_id@,
            lookup[ci].sessions@[si].session_id@,
            spec_dose_capacity(sub.dose, lookup[ci].sessions@[si]),
        ),
{
}

} // verus!

//! The engine orchestrator: one batch pass as an explicit state machine.
//!
//! The engine holds the decisions of a pass — grouping subscriptions by
//! district, matching, recording exclusions, and the final persistence
//! decision — while everything that crosses a process boundary (the
//! availability fetch, rendering, sending, the storage write) is an
//! [`EngineAction`] handed to the caller, whose result comes back as an
//! [`EngineEvent`].
//!
//! The failure policy lives in the transitions: a failed availability
//! fetch skips that district and the pass continues; a failed render or
//! send aborts the pass at once; the exclusion store is persisted exactly
//! once, at the very end, and only when its serialized byte length
//! changed.

use vstd::prelude::*;

use crate::alert_session::{alert_pairs, AlertSession};
use crate::alerts::AlertFilter;
use crate::centers::{build_center_lookup, lookup_ok, Center, CenterResponse};
use crate::exclusion::{encoded_len, spec_add, spec_encode, ExclusionMap};
use crate::matching::{match_subscription, match_output_ok, spec_matches};

verus! {

/// One district's worth of subscriptions.
#[derive(Debug, Clone, PartialEq)]
pub struct DistrictGroup {
    pub district_id: u32,
    pub alerts: Vec<AlertFilter>,
}

/// The subscriptions of `alerts` that watch district `id`, in order.
pub open spec fn by_district(alerts: Seq<AlertFilter>, id: u32) -> Seq<AlertFilter> {
    alerts.filter(|a: AlertFilter| a.district_id == id)
}

/// Some group carries this district id.
pub open spec fn has_group(groups: Seq<DistrictGroup>, id: u32) -> bool {
    exists|g: int| 0 <= g < groups.len() && (#[trigger] groups[g]).district_id == id
}

/// What a correct grouping is: group ids are distinct, each group holds
/// exactly the subscriptions of its district in their original order, and
/// every subscription's district has a group.
pub open spec fn group_ok(alerts: Seq<AlertFilter>, groups: Seq<DistrictGroup>) -> bool {
    &&& forall|g1: int, g2: int|
        0 <= g1 < g2 < groups.len() ==> groups[g1].district_id != groups[g2].district_id
    &&& forall|g: int|
        0 <= g < groups.len() ==> (#[trigger] groups[g]).alerts@ == by_district(
            alerts,
            groups[g].district_id,
        )
    &&& forall|j: int|
        0 <= j < alerts.len() ==> has_group(groups, (#[trigger] alerts[j]).district_id)
}

proof fn lemma_by_district_push(alerts: Seq<AlertFilter>, a: AlertFilter, id: u32)
    ensures
        by_district(alerts.push(a), id) == if a.district_id == id {
            by_district(alerts, id).push(a)
        } else {
            by_district(alerts, id)
        },
{
    reveal(Seq::filter);
    assert(alerts.push(a).drop_last() =~= alerts);
    assert(alerts.push(a).last() == a);
}

proof fn lemma_by_district_none(alerts: Seq<AlertFilter>, id: u32)
    requires
        forall|j: int| 0 <= j < alerts.len() ==> (#[trigger] alerts[j]).district_id != id,
    ensures
        by_district(alerts, id) == Seq::<AlertFilter>::empty(),
    decreases alerts.len(),
{
    reveal(Seq::filter);
    if alerts.len() > 0 {
        let head = alerts.drop_last();
        assert(forall|j: int| 0 <= j < head.len() ==> (#[trigger] head[j]) == alerts[j]);
        lemma_by_district_none(head, id);
        assert(head.push(alerts.last()) =~= alerts);
        lemma_by_district_push(head, alerts.last(), id);
    }
}

/// Finds the first group of the given district.
fn find_group(groups: &Vec<DistrictGroup>, id: u32) -> (r: Option<usize>)
    ensures
        match r {
            Some(g) => g < groups@.len() && groups@[g as int].district_id == id,
            None => forall|k: int|
                0 <= k < groups@.len() ==> (#[trigger] groups@[k]).district_id != id,
        },
{
    let mut g: usize = 0;
    while g < groups.len()
        invariant
            0 <= g <= groups@.len(),
            forall|k: int| 0 <= k < g ==> (#[trigger] groups@[k]).district_id != id,
        decreases groups@.len() - g,
    {
        if groups[g].district_id == id {
            return Some(g);
        }
        g = g + 1;
    }
    None
}

/// Partitions subscriptions by district, keeping their relative order
/// within each district and making one group per district, in order of
/// first appearance.
pub fn group_by_district(alerts: Vec<AlertFilter>) -> (groups: Vec<DistrictGroup>)
    ensures
        group_ok(alerts@, groups@),
{
    let ghost all = alerts@;
    let mut rest = alerts;
    let mut groups: Vec<DistrictGroup> = Vec::new();
    let ghost mut i: int = 0;
    proof {
        assert(rest@ =~= all.skip(0));
    }
    while rest.len() > 0
        invariant
            0 <= i <= all.len(),
            i == all.len() - rest@.len(),
            rest@ == all.skip(i),
            forall|g1: int, g2: int|
                0 <= g1 < g2 < groups@.len() ==> groups@[g1].district_id
                    != groups@[g2].district_id,
            forall|g: int|
                0 <= g < groups@.len() ==> (#[trigger] groups@[g]).alerts@ == by_district(
                    all.take(i),
                    groups@[g].district_id,
                ),
            forall|j: int|
                0 <= j < i ==> has_group(groups@, (#[trigger] all[j]).district_id),
        decreases rest@.len(),
    {
        proof {
            assert(rest@[0] == all.skip(i)[0]);
            assert(all.skip(i)[0] == all[i]);
        }
        let a = rest.remove(0);
        proof {
            assert(a == all[i]);
            assert(rest@ =~= all.skip(i + 1));
            assert(all.take(i + 1) =~= all.take(i).push(all[i]));
        }
        let id = a.district_id;
        let ghost old_groups = groups@;
        match find_group(&groups, id) {
            Some(g) => {
                let mut rec = groups.remove(g);
                rec.alerts.push(a);
                groups.insert(g, rec);
                proof {
                    assert(groups@ =~= old_groups.update(g as int, rec));
                    assert forall|g2: int| 0 <= g2 < groups@.len() implies (
                    #[trigger] groups@[g2]).alerts@ == by_district(
                        all.take(i + 1),
                        groups@[g2].district_id,
                    ) by {
                        lemma_by_district_push(all.take(i), all[i], groups@[g2].district_id);
                        if g2 != g as int {
                            assert(groups@[g2] == old_groups[g2]);
                            assert(groups@[g2].district_id != id);
                        }
                    }
                    assert forall|j: int| 0 <= j < i + 1 implies has_group(
                        groups@,
                        (#[trigger] all[j]).district_id,
                    ) by {
                        if j < i {
                            let g3 = choose|g3: int|
                                0 <= g3 < old_groups.len() && (#[trigger] old_groups[g3]).district_id
                                    == all[j].district_id;
                            assert(groups@[g3].district_id == old_groups[g3].district_id);
                        } else {
                            assert(groups@[g as int].district_id == all[i].district_id);
                        }
                    }
                }
            },
            None => {
                let mut fresh: Vec<AlertFilter> = Vec::new();
                fresh.push(a);
                let rec = DistrictGroup { district_id: id, alerts: fresh };
                groups.push(rec);
                proof {
                    assert(groups@ =~= old_groups.push(rec));
                    assert forall|j: int| 0 <= j < i implies (#[trigger] all[j]).district_id != id
                        by {
                        let g3 = choose|g3: int|
                            0 <= g3 < old_groups.len() && (#[trigger] old_groups[g3]).district_id
                                == all[j].district_id;
                    }
                    lemma_by_district_none(all.take(i), id);
                    assert forall|g2: int| 0 <= g2 < groups@.len() implies (
                    #[trigger] groups@[g2]).alerts@ == by_district(
                        all.take(i + 1),
                        groups@[g2].district_id,
                    ) by {
                        lemma_by_district_push(all.take(i), all[i], groups@[g2].district_id);
                        if g2 < old_groups.len() as int {
                            assert(groups@[g2] == old_groups[g2]);
                            assert(groups@[g2].district_id != id);
                        } else {
                            assert(groups@[g2].alerts@ =~= Seq::<AlertFilter>::empty().push(
                                all[i],
                            ));
                        }
                    }
                    assert forall|j: int| 0 <= j < i + 1 implies has_group(
                        groups@,
                        (#[trigger] all[j]).district_id,
                    ) by {
                        if j < i {
                            let g3 = choose|g3: int|
                                0 <= g3 < old_groups.len() && (#[trigger] old_groups[g3]).district_id
                                    == all[j].district_id;
                            assert(groups@[g3].district_id == old_groups[g3].district_id);
                        } else {
                            assert(groups@[old_groups.len() as int].district_id
                                == all[i].district_id);
                        }
                    }
                    assert forall|g1: int, g2: int|
                        0 <= g1 < g2 < groups@.len() implies groups@[g1].district_id
                        != groups@[g2].district_id by {
                        if g2 == old_groups.len() as int {
                            assert(groups@[g1].district_id == old_groups[g1].district_id);
                        }
                    }
                }
            },
        }
        proof {
            i = i + 1;
        }
    }
    proof {
        assert(all.take(all.len() as int) =~= all);
    }
    groups
}

// ---------------------------------------------------------------------------
// The state machine.
// ---------------------------------------------------------------------------

/// What the engine waits for.
#[derive(Debug, Clone, Copy, PartialEq, Eq, Structural)]
pub enum EnginePhase {
    /// Waiting for the current district's availability snapshot.
    Fetching,
    /// Waiting for the pending notification to be rendered and sent.
    Notifying,
    /// Waiting for the persistence write (or skip) to be confirmed.
    Persisting,
    /// The pass is over.
    Finished,
}

/// A notification the engine decided on: whom to tell about which
/// matched sessions.
#[derive(Debug, PartialEq)]
pub struct Notification {
    pub user_id: String,
    pub email: String,
    pub sessions: Vec<AlertSession>,
}

/// What the caller must do next.
#[derive(Debug)]
pub enum EngineAction {
    /// Fetch the availability snapshot of this district.
    Fetch { district_id: u32 },
    /// Render and send the pending notification (see
    /// [`AlertEngine::pending`]) to this user.
    Notify { user_id: String, email: String },
    /// Write the serialized exclusion store, or confirm the skip when the
    /// byte-length heuristic says nothing changed (`None`).
    Persist { payload: Option<String> },
    /// The pass is over; `ok` is false when a send or the persistence
    /// write failed.
    Done { ok: bool },
}

/// What the caller reports back.
pub enum EngineEvent {
    /// The availability fetch finished; `None` means it failed.
    Fetched { response: Option<CenterResponse> },
    /// The render-and-send of the pending notification finished.
    Notified { ok: bool },
    /// The persistence write (or skip) finished.
    Persisted { ok: bool },
}

/// One batch pass over all districts and subscriptions.
pub struct AlertEngine {
    /// Subscriptions grouped by district; fixed for the pass.
    pub groups: Vec<DistrictGroup>,
    /// The exclusion store, mutated as notifications succeed.
    pub exclusion: ExclusionMap,
    /// The availability lookup of the current district.
    pub lookup: Vec<Center>,
    /// The district being processed.
    pub district_idx: usize,
    /// The subscription within the current district that the pending
    /// notification belongs to.
    pub alert_idx: usize,
    /// The notification awaiting its send confirmation.
    pub pending: Option<Notification>,
    /// What the engine waits for.
    pub phase: EnginePhase,
}

/// No session at all is matched for `sub`.
pub open spec fn no_match_for(
    sub: AlertFilter,
    lookup: Seq<Center>,
    m: Seq<(Seq<char>, Seq<(Seq<char>, u64)>)>,
) -> bool {
    forall|ci: int, si: int| !spec_matches(sub, lookup, m, ci, si)
}

/// Every subscription of `g` with index in `[lo, hi)` has no match.
pub open spec fn no_matches_range(
    g: DistrictGroup,
    lookup: Seq<Center>,
    m: Seq<(Seq<char>, Seq<(Seq<char>, u64)>)>,
    lo: int,
    hi: int,
) -> bool {
    forall|j: int| lo <= j < hi ==> no_match_for(#[trigger] g.alerts@[j], lookup, m)
}

impl AlertEngine {
    /// The pending notification is exactly the match result of the
    /// subscription the engine stopped at, and it is non-empty.
    pub open spec fn pending_ok(self) -> bool {
        match self.pending {
            Some(n) => {
                let sub =
                    self.groups@[self.district_idx as int].alerts@[self.alert_idx as int];
                &&& n.user_id == sub.user_id
                &&& n.email == sub.email
                &&& n.sessions@.len() > 0
                &&& match_output_ok(sub, self.lookup@, self.exclusion.records(), n.sessions@)
            },
            None => false,
        }
    }

    /// The engine's phase invariant.
    pub open spec fn wf(self) -> bool {
        &&& self.district_idx <= self.groups@.len()
        &&& match self.phase {
            EnginePhase::Fetching => {
                &&& self.district_idx < self.groups@.len()
                &&& self.pending is None
            },
            EnginePhase::Notifying => {
                &&& self.district_idx < self.groups@.len()
                &&& self.alert_idx
                    < self.groups@[self.district_idx as int].alerts@.len()
                &&& self.pending_ok()
            },
            EnginePhase::Persisting => {
                &&& self.district_idx == self.groups@.len()
                &&& self.pending is None
            },
            EnginePhase::Finished => true,
        }
    }

    /// Which events the current phase awaits.
    pub open spec fn expects(self, event: EngineEvent) -> bool {
        match event {
            EngineEvent::Fetched { .. } => self.phase == EnginePhase::Fetching,
            EngineEvent::Notified { .. } => self.phase == EnginePhase::Notifying,
            EngineEvent::Persisted { .. } => self.phase == EnginePhase::Persisting,
        }
    }

    /// The action handed out is truthful about the state it was handed
    /// out of.
    pub open spec fn action_ok(self, action: EngineAction) -> bool {
        match action {
            EngineAction::Fetch { district_id } => {
                &&& self.phase == EnginePhase::Fetching
                &&& district_id == self.groups@[self.district_idx as int].district_id
            },
            EngineAction::Notify { user_id, email } => {
                &&& self.phase == EnginePhase::Notifying
                &&& match self.pending {
                    Some(n) => n.user_id == user_id && n.email == email,
                    None => false,
                }
            },
            EngineAction::Persist { payload } => {
                &&& self.phase == EnginePhase::Persisting
                &&& match payload {
                    Some(p) => p@ == spec_encode(self.exclusion.records()) && encoded_len(
                        self.exclusion.records(),
                    ) != self.exclusion.baseline(),
                    None => encoded_len(self.exclusion.records())
                        == self.exclusion.baseline(),
                }
            },
            EngineAction::Done { .. } => self.phase == EnginePhase::Finished,
        }
    }

    /// The exclusion store changes only when a notification was confirmed
    /// sent, and then by exactly the pending sessions' record — never
    /// before the send, never on a failure.
    pub open spec fn exclusion_after(pre: Self, event: EngineEvent, post: Self) -> bool {
        &&& post.exclusion.baseline() == pre.exclusion.baseline()
        &&& match event {
            EngineEvent::Notified { ok: true } => match pre.pending {
                Some(n) => post.exclusion.records() == spec_add(
                    pre.exclusion.records(),
                    n.user_id@,
                    alert_pairs(n.sessions@),
                ),
                None => false,
            },
            _ => post.exclusion.records() == pre.exclusion.records(),
        }
    }

    /// The engine moved on to the next district: a fresh fetch when one is
    /// left, otherwise the single end-of-pass persistence step.
    pub open spec fn advanced(pre_d: int, post: Self, action: EngineAction) -> bool {
        &&& post.pending is None
        &&& post.district_idx == pre_d + 1
        &&& if pre_d + 1 < post.groups@.len() {
            post.phase == EnginePhase::Fetching && action matches EngineAction::Fetch { .. }
        } else {
            post.phase == EnginePhase::Persisting && action matches EngineAction::Persist { .. }
        }
    }

    /// The engine scanned the current district's subscriptions from `j0`
    /// on: the ones it passed over had no matches, and it stopped either
    /// at the first with matches (handing out its notification) or at the
    /// district's end (moving on).
    pub open spec fn scanned(pre_d: int, j0: int, post: Self, action: EngineAction) -> bool {
        let g = post.groups@[pre_d];
        match action {
            EngineAction::Notify { .. } => {
                &&& post.phase == EnginePhase::Notifying
                &&& post.district_idx == pre_d
                &&& j0 <= post.alert_idx as int
                &&& (post.alert_idx as int) < g.alerts@.len()
                &&& no_matches_range(
                    g,
                    post.lookup@,
                    post.exclusion.records(),
                    j0,
                    post.alert_idx as int,
                )
            },
            EngineAction::Fetch { .. } | EngineAction::Persist { .. } => {
                &&& no_matches_range(
                    g,
                    post.lookup@,
                    post.exclusion.records(),
                    j0,
                    g.alerts@.len() as int,
                )
                &&& Self::advanced(pre_d, post, action)
            },
            EngineAction::Done { .. } => false,
        }
    }

    /// The whole transition relation of one step.
    pub open spec fn step_post(
        pre: Self,
        event: EngineEvent,
        post: Self,
        action: EngineAction,
    ) -> bool {
        &&& post.groups == pre.groups
        &&& Self::exclusion_after(pre, event, post)
        &&& post.action_ok(action)
        &&& match event {
            EngineEvent::Fetched { response } => match response {
                Some(resp) => {
                    &&& lookup_ok(resp.centers@, post.lookup@)
                    &&& Self::scanned(pre.district_idx as int, 0, post, action)
                },
                // A failed fetch skips the district; the pass goes on.
                None => Self::advanced(pre.district_idx as int, post, action),
            },
            EngineEvent::Notified { ok } => {
                if ok {
                    &&& post.lookup == pre.lookup
                    &&& Self::scanned(
                        pre.district_idx as int,
                        pre.alert_idx as int + 1,
                        post,
                        action,
                    )
                } else {
                    // A failed render or send aborts the pass at once.
                    &&& post.phase == EnginePhase::Finished
                    &&& action matches EngineAction::Done { ok: false }
                }
            },
            EngineEvent::Persisted { ok } => {
                &&& post.phase == EnginePhase::Finished
                &&& action matches EngineAction::Done { ok: done_ok } && done_ok == ok
            },
        }
    }

    /// Sets up a pass: groups the subscriptions by district and takes the
    /// loaded exclusion store.
    pub fn new(alerts: Vec<AlertFilter>, exclusion: ExclusionMap) -> (r: Self)
        ensures
            r.wf(),
            group_ok(alerts@, r.groups@),
            r.exclusion == exclusion,
            r.district_idx == 0,
            r.pending is None,
            r.phase == if r.groups@.len() == 0 {
                EnginePhase::Persisting
            } else {
                EnginePhase::Fetching
            },
    {
        let groups = group_by_district(alerts);
        let phase = if groups.len() == 0 {
            EnginePhase::Persisting
        } else {
            EnginePhase::Fetching
        };
        AlertEngine {
            groups,
            exclusion,
            lookup: Vec::new(),
            district_idx: 0,
            alert_idx: 0,
            pending: None,
            phase,
        }
    }

    /// The first action of a pass: fetch the first district, or go
    /// straight to the persistence decision when there is nothing to do.
    pub fn start(&self) -> (action: EngineAction)
        requires
            self.wf(),
            self.phase == EnginePhase::Fetching || self.phase == EnginePhase::Persisting,
        ensures
            self.action_ok(action),
    {
        if self.district_idx < self.groups.len() {
            proof {
                assert(self.phase == EnginePhase::Fetching);
            }
            EngineAction::Fetch { district_id: self.groups[self.district_idx].district_id }
        } else {
            let payload = self.exclusion.store_payload();
            EngineAction::Persist { payload }
        }
    }

    /// Moves past the current district.
    fn advance(&mut self) -> (action: EngineAction)
        requires
            old(self).district_idx < old(self).groups@.len(),
        ensures
            final(self).wf(),
            final(self).groups == old(self).groups,
            final(self).exclusion == old(self).exclusion,
            final(self).lookup == old(self).lookup,
            Self::advanced(old(self).district_idx as int, *final(self), action),
            final(self).action_ok(action),
    {
        self.pending = None;
        self.alert_idx = 0;
        let n_groups = self.groups.len();
        self.district_idx = self.district_idx + 1;
        if self.district_idx < n_groups {
            self.phase = EnginePhase::Fetching;
            EngineAction::Fetch { district_id: self.groups[self.district_idx].district_id }
        } else {
            self.phase = EnginePhase::Persisting;
            let payload = self.exclusion.store_payload();
            EngineAction::Persist { payload }
        }
    }

    /// Scans the current district's subscriptions from `j0` on, stopping
    /// at the first with matched sessions.
    fn scan(&mut self, j0: usize) -> (action: EngineAction)
        requires
            old(self).district_idx < old(self).groups@.len(),
            j0 <= old(self).groups@[old(self).district_idx as int].alerts@.len(),
            old(self).pending is None,
        ensures
            final(self).wf(),
            final(self).groups == old(self).groups,
            final(self).exclusion == old(self).exclusion,
            final(self).lookup == old(self).lookup,
            Self::scanned(old(self).district_idx as int, j0 as int, *final(self), action),
            final(self).action_ok(action),
    {
        let d = self.district_idx;
        let mut j = j0;
        let n_alerts = self.groups[d].alerts.len();
        while j < n_alerts
            invariant
                *self == *old(self),
                d == self.district_idx,
                d < self.groups@.len(),
                j0 <= j <= n_alerts,
                n_alerts == self.groups@[d as int].alerts@.len(),
                no_matches_range(
                    self.groups@[d as int],
                    self.lookup@,
                    self.exclusion.records(),
                    j0 as int,
                    j as int,
                ),
            decreases n_alerts - j,
        {
            let sessions = match_subscription(
                &self.groups[d].alerts[j],
                &self.lookup,
                &self.exclusion,
            );
            if sessions.len() > 0 {
                let sub = &self.groups[d].alerts[j];
                let user_id = sub.user_id.clone();
                let email = sub.email.clone();
                let notice = Notification {
                    user_id: sub.user_id.clone(),
                    email: sub.email.clone(),
                    sessions,
                };
                self.pending = Some(notice);
                self.alert_idx = j;
                self.phase = EnginePhase::Notifying;
                return EngineAction::Notify { user_id, email };
            }
            proof {
                let sub = self.groups@[d as int].alerts@[j as int];
                assert forall|ci: int, si: int| !spec_matches(
                    sub,
                    self.lookup@,
                    self.exclusion.records(),
                    ci,
                    si,
                ) by {
                    if spec_matches(sub, self.lookup@, self.exclusion.records(), ci, si) {
                        assert(crate::matching::contains_pair(sessions@, ci, si));
                    }
                }
            }
            j = j + 1;
        }
        self.advance()
    }

    /// Feeds one event in and hands the next action out.
    pub fn step(&mut self, event: EngineEvent) -> (action: EngineAction)
        requires
            old(self).wf(),
            old(self).expects(event),
        ensures
            final(self).wf(),
            Self::step_post(*old(self), event, *final(self), action),
    {
        match event {
            EngineEvent::Fetched { response } => {
                match response {
                    Some(resp) => {
                        self.lookup = build_center_lookup(resp.centers);
                        self.scan(0)
                    },
                    None => self.advance(),
                }
            },
            EngineEvent::Notified { ok } => {
                if ok {
                    match &self.pending {
                        Some(n) => {
                            self.exclusion.add(&n.user_id, &n.sessions);
                        },
                        None => {
                            proof {
                                assert(false);
                            }
                        },
                    }
                    self.pending = None;
                    // Reading the length establishes that alert_idx + 1
                    // stays in range.
                    let _district_len = self.groups[self.district_idx].alerts.len();
                    let j0 = self.alert_idx + 1;
                    self.scan(j0)
                } else {
                    self.pending = None;
                    self.phase = EnginePhase::Finished;
                    EngineAction::Done { ok: false }
                }
            },
            EngineEvent::Persisted { ok } => {
                self.phase = EnginePhase::Finished;
                EngineAction::Done { ok }
            },
        }
    }
}

} // verus!

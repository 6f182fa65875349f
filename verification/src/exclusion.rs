//! The exclusion store: per user, the last-notified capacity of every
//! session, used to suppress notifications that would repeat an unchanged
//! state.
//!
//! The store is loaded once per pass, mutated in memory by [`ExclusionMap::add`],
//! queried by [`ExclusionMap::any_variance`], and persisted once at the end —
//! but only when the serialized byte length differs from the length captured
//! at load time ([`ExclusionMap::store_payload`]).

use vstd::prelude::*;

use crate::alert_session::{alert_pair, alert_pairs, AlertSession};
use crate::json::{dec_seq, expect_char, parse_string, parse_u64, push_char, push_quoted, push_u64, quoted};

verus! {

/// One remembered session for one user: its id and the capacity last
/// notified, in thousandths of a slot.
#[derive(Debug, Clone, PartialEq)]
pub struct ExclusionEntry {
    pub session_id: String,
    pub capacity: u64,
}

/// Every remembered session of one user.
#[derive(Debug, Clone, PartialEq)]
pub struct UserRecord {
    pub user_id: String,
    pub sessions: Vec<ExclusionEntry>,
}

/// The mathematical value of one entry: (session id, capacity).
pub open spec fn entry_model(e: ExclusionEntry) -> (Seq<char>, u64) {
    (e.session_id@, e.capacity)
}

/// The mathematical value of an entry list.
pub open spec fn entries_model(es: Seq<ExclusionEntry>) -> Seq<(Seq<char>, u64)> {
    es.map_values(|e: ExclusionEntry| entry_model(e))
}

/// The mathematical value of one user record: (user id, entries in order).
pub open spec fn record_model(r: UserRecord) -> (Seq<char>, Seq<(Seq<char>, u64)>) {
    (r.user_id@, entries_model(r.sessions@))
}

/// The mathematical value of a whole record list.
pub open spec fn records_model(rs: Seq<UserRecord>) -> Seq<(Seq<char>, Seq<(Seq<char>, u64)>)> {
    rs.map_values(|r: UserRecord| record_model(r))
}

/// The capacity recorded for `sid` in one user's entry list: the first
/// entry with that id decides.
pub open spec fn recorded_in(rs: Seq<(Seq<char>, u64)>, sid: Seq<char>) -> Option<u64>
    decreases rs.len(),
{
    if rs.len() == 0 {
        None
    } else if rs[0].0 == sid {
        Some(rs[0].1)
    } else {
        recorded_in(rs.skip(1), sid)
    }
}

/// The entry list recorded for `user`: the first record with that id
/// decides.
pub open spec fn user_sessions(
    m: Seq<(Seq<char>, Seq<(Seq<char>, u64)>)>,
    user: Seq<char>,
) -> Option<Seq<(Seq<char>, u64)>>
    decreases m.len(),
{
    if m.len() == 0 {
        None
    } else if m[0].0 == user {
        Some(m[0].1)
    } else {
        user_sessions(m.skip(1), user)
    }
}

/// The capacity last recorded for `(user, sid)`, if any.
pub open spec fn recorded(
    m: Seq<(Seq<char>, Seq<(Seq<char>, u64)>)>,
    user: Seq<char>,
    sid: Seq<char>,
) -> Option<u64> {
    match user_sessions(m, user) {
        None => None,
        Some(rs) => recorded_in(rs, sid),
    }
}

/// The suppression gate: true unless exactly `capacity` is on record for
/// `(user, sid)` — a never-seen session and a changed capacity (in either
/// direction) both count as variance.
pub open spec fn spec_any_variance(
    m: Seq<(Seq<char>, Seq<(Seq<char>, u64)>)>,
    user: Seq<char>,
    sid: Seq<char>,
    capacity: u64,
) -> bool {
    recorded(m, user, sid) != Some(capacity)
}

/// One upsert into an entry list: the first entry with id `sid` gets
/// capacity `cap`; if none exists, a new entry is appended.
pub open spec fn upsert(
    rs: Seq<(Seq<char>, u64)>,
    sid: Seq<char>,
    cap: u64,
) -> Seq<(Seq<char>, u64)>
    decreases rs.len(),
{
    if rs.len() == 0 {
        seq![(sid, cap)]
    } else if rs[0].0 == sid {
        rs.update(0, (sid, cap))
    } else {
        seq![rs[0]] + upsert(rs.skip(1), sid, cap)
    }
}

/// Upserts a batch of pairs, in order.
pub open spec fn fold_upsert(
    rs: Seq<(Seq<char>, u64)>,
    pairs: Seq<(Seq<char>, u64)>,
) -> Seq<(Seq<char>, u64)>
    decreases pairs.len(),
{
    if pairs.len() == 0 {
        rs
    } else {
        fold_upsert(upsert(rs, pairs[0].0, pairs[0].1), pairs.skip(1))
    }
}

/// The entry list of `user` before an add: its record if one exists,
/// otherwise empty.
pub open spec fn sessions_or_empty(
    m: Seq<(Seq<char>, Seq<(Seq<char>, u64)>)>,
    user: Seq<char>,
) -> Seq<(Seq<char>, u64)> {
    match user_sessions(m, user) {
        None => Seq::empty(),
        Some(rs) => rs,
    }
}

/// What an add does to the whole store: the first record of `user` has
/// all of `pairs` upserted into it; a user without a record gets a fresh
/// one.  Every other record is untouched.
pub open spec fn spec_add(
    m: Seq<(Seq<char>, Seq<(Seq<char>, u64)>)>,
    user: Seq<char>,
    pairs: Seq<(Seq<char>, u64)>,
) -> Seq<(Seq<char>, Seq<(Seq<char>, u64)>)>
    decreases m.len(),
{
    if m.len() == 0 {
        seq![(user, fold_upsert(Seq::empty(), pairs))]
    } else if m[0].0 == user {
        m.update(0, (user, fold_upsert(m[0].1, pairs)))
    } else {
        seq![m[0]] + spec_add(m.skip(1), user, pairs)
    }
}

/// Entry lists keep at most one entry per session id.
pub open spec fn wf_entries(rs: Seq<(Seq<char>, u64)>) -> bool {
    forall|i: int, j: int| 0 <= i < j < rs.len() ==> rs[i].0 != rs[j].0
}

/// The store keeps at most one record per user and, within each record,
/// at most one entry per session id.
pub open spec fn wf_store(m: Seq<(Seq<char>, Seq<(Seq<char>, u64)>)>) -> bool {
    &&& forall|i: int, j: int| 0 <= i < j < m.len() ==> m[i].0 != m[j].0
    &&& forall|i: int| 0 <= i < m.len() ==> wf_entries(m[i].1)
}

// ---------------------------------------------------------------------------
// Characterization lemmas: the recursive lookups agree with positional
// descriptions, which is what the executable loops establish.
// ---------------------------------------------------------------------------

proof fn lemma_recorded_in_at(rs: Seq<(Seq<char>, u64)>, sid: Seq<char>, j: int)
    requires
        0 <= j < rs.len(),
        rs[j].0 == sid,
        forall|k: int| 0 <= k < j ==> rs[k].0 != sid,
    ensures
        recorded_in(rs, sid) == Some(rs[j].1),
    decreases j,
{
    if j > 0 {
        lemma_recorded_in_at(rs.skip(1), sid, j - 1);
    }
}

proof fn lemma_recorded_in_none(rs: Seq<(Seq<char>, u64)>, sid: Seq<char>)
    requires
        forall|k: int| 0 <= k < rs.len() ==> rs[k].0 != sid,
    ensures
        recorded_in(rs, sid) is None,
    decreases rs.len(),
{
    if rs.len() > 0 {
        lemma_recorded_in_none(rs.skip(1), sid);
    }
}

proof fn lemma_user_sessions_at(
    m: Seq<(Seq<char>, Seq<(Seq<char>, u64)>)>,
    user: Seq<char>,
    i: int,
)
    requires
        0 <= i < m.len(),
        m[i].0 == user,
        forall|k: int| 0 <= k < i ==> m[k].0 != user,
    ensures
        user_sessions(m, user) == Some(m[i].1),
    decreases i,
{
    if i > 0 {
        lemma_user_sessions_at(m.skip(1), user, i - 1);
    }
}

proof fn lemma_user_sessions_none(m: Seq<(Seq<char>, Seq<(Seq<char>, u64)>)>, user: Seq<char>)
    requires
        forall|k: int| 0 <= k < m.len() ==> m[k].0 != user,
    ensures
        user_sessions(m, user) is None,
    decreases m.len(),
{
    if m.len() > 0 {
        lemma_user_sessions_none(m.skip(1), user);
    }
}

proof fn lemma_upsert_found(rs: Seq<(Seq<char>, u64)>, sid: Seq<char>, cap: u64, j: int)
    requires
        0 <= j < rs.len(),
        rs[j].0 == sid,
        forall|k: int| 0 <= k < j ==> rs[k].0 != sid,
    ensures
        upsert(rs, sid, cap) =~= rs.update(j, (sid, cap)),
    decreases j,
{
    if j > 0 {
        lemma_upsert_found(rs.skip(1), sid, cap, j - 1);
        assert(seq![rs[0]] + rs.skip(1).update(j - 1, (sid, cap)) =~= rs.update(j, (sid, cap)));
    }
}

proof fn lemma_upsert_absent(rs: Seq<(Seq<char>, u64)>, sid: Seq<char>, cap: u64)
    requires
        forall|k: int| 0 <= k < rs.len() ==> rs[k].0 != sid,
    ensures
        upsert(rs, sid, cap) =~= rs.push((sid, cap)),
    decreases rs.len(),
{
    if rs.len() > 0 {
        lemma_upsert_absent(rs.skip(1), sid, cap);
        assert(seq![rs[0]] + rs.skip(1).push((sid, cap)) =~= rs.push((sid, cap)));
    }
}

proof fn lemma_add_found(
    m: Seq<(Seq<char>, Seq<(Seq<char>, u64)>)>,
    user: Seq<char>,
    pairs: Seq<(Seq<char>, u64)>,
    i: int,
)
    requires
        0 <= i < m.len(),
        m[i].0 == user,
        forall|k: int| 0 <= k < i ==> m[k].0 != user,
    ensures
        spec_add(m, user, pairs) =~= m.update(i, (user, fold_upsert(m[i].1, pairs))),
    decreases i,
{
    if i > 0 {
        lemma_add_found(m.skip(1), user, pairs, i - 1);
        assert(seq![m[0]] + m.skip(1).update(i - 1, (user, fold_upsert(m[i].1, pairs))) =~= m.update(
            i,
            (user, fold_upsert(m[i].1, pairs)),
        ));
    }
}

proof fn lemma_add_absent(
    m: Seq<(Seq<char>, Seq<(Seq<char>, u64)>)>,
    user: Seq<char>,
    pairs: Seq<(Seq<char>, u64)>,
)
    requires
        forall|k: int| 0 <= k < m.len() ==> m[k].0 != user,
    ensures
        spec_add(m, user, pairs) =~= m.push((user, fold_upsert(Seq::empty(), pairs))),
    decreases m.len(),
{
    if m.len() > 0 {
        lemma_add_absent(m.skip(1), user, pairs);
        assert(seq![m[0]] + m.skip(1).push((user, fold_upsert(Seq::empty(), pairs))) =~= m.push(
            (user, fold_upsert(Seq::empty(), pairs)),
        ));
    }
}

// ---------------------------------------------------------------------------
// The laws of the suppression gate.
// ---------------------------------------------------------------------------

/// Recording a capacity for a session overwrites exactly that session's
/// entry.
proof fn lemma_recorded_in_upsert_same(rs: Seq<(Seq<char>, u64)>, sid: Seq<char>, cap: u64)
    ensures
        recorded_in(upsert(rs, sid, cap), sid) == Some(cap),
    decreases rs.len(),
{
    if rs.len() == 0 {
    } else if rs[0].0 == sid {
    } else {
        lemma_recorded_in_upsert_same(rs.skip(1), sid, cap);
        assert((seq![rs[0]] + upsert(rs.skip(1), sid, cap)).skip(1) =~= upsert(
            rs.skip(1),
            sid,
            cap,
        ));
    }
}

/// An upsert leaves every other session's entry alone.
proof fn lemma_recorded_in_upsert_other(
    rs: Seq<(Seq<char>, u64)>,
    sid: Seq<char>,
    cap: u64,
    other: Seq<char>,
)
    requires
        other != sid,
    ensures
        recorded_in(upsert(rs, sid, cap), other) == recorded_in(rs, other),
    decreases rs.len(),
{
    let up = upsert(rs, sid, cap);
    if rs.len() == 0 {
        assert(up =~= seq![(sid, cap)]);
        assert(up[0].0 == sid);
        assert(up.skip(1) =~= Seq::<(Seq<char>, u64)>::empty());
        assert(recorded_in(up.skip(1), other) is None);
    } else if rs[0].0 == sid {
        assert(up == rs.update(0, (sid, cap)));
        assert(up[0].0 == sid);
        assert(up.skip(1) =~= rs.skip(1));
    } else {
        lemma_recorded_in_upsert_other(rs.skip(1), sid, cap, other);
        assert(up == seq![rs[0]] + upsert(rs.skip(1), sid, cap));
        assert(up[0] == rs[0]);
        assert(up.skip(1) =~= upsert(rs.skip(1), sid, cap));
    }
}

/// A batch upsert leaves sessions it does not name alone.
proof fn lemma_recorded_in_fold_absent(
    rs: Seq<(Seq<char>, u64)>,
    pairs: Seq<(Seq<char>, u64)>,
    sid: Seq<char>,
)
    requires
        forall|k: int| 0 <= k < pairs.len() ==> pairs[k].0 != sid,
    ensures
        recorded_in(fold_upsert(rs, pairs), sid) == recorded_in(rs, sid),
    decreases pairs.len(),
{
    if pairs.len() > 0 {
        lemma_recorded_in_upsert_other(rs, pairs[0].0, pairs[0].1, sid);
        lemma_recorded_in_fold_absent(upsert(rs, pairs[0].0, pairs[0].1), pairs.skip(1), sid);
    }
}

/// After a batch upsert, a named session carries the capacity of its last
/// occurrence in the batch.
proof fn lemma_recorded_in_fold_last(
    rs: Seq<(Seq<char>, u64)>,
    pairs: Seq<(Seq<char>, u64)>,
    j: int,
)
    requires
        0 <= j < pairs.len(),
        forall|k: int| j < k < pairs.len() ==> pairs[k].0 != pairs[j].0,
    ensures
        recorded_in(fold_upsert(rs, pairs), pairs[j].0) == Some(pairs[j].1),
    decreases j,
{
    let rs1 = upsert(rs, pairs[0].0, pairs[0].1);
    if j == 0 {
        lemma_recorded_in_upsert_same(rs, pairs[0].0, pairs[0].1);
        assert(forall|k: int|
            0 <= k < pairs.skip(1).len() ==> pairs.skip(1)[k].0 != pairs[0].0) by {
            assert(forall|k: int|
                0 <= k < pairs.skip(1).len() ==> pairs.skip(1)[k] == pairs[k + 1]);
        }
        lemma_recorded_in_fold_absent(rs1, pairs.skip(1), pairs[0].0);
    } else {
        assert(pairs.skip(1)[j - 1] == pairs[j]);
        assert(forall|k: int|
            j - 1 < k < pairs.skip(1).len() ==> (#[trigger] pairs.skip(1)[k]).0 != pairs.skip(1)[j
                - 1].0) by {
            assert(forall|k: int|
                0 <= k < pairs.skip(1).len() ==> pairs.skip(1)[k] == pairs[k + 1]);
        }
        lemma_recorded_in_fold_last(rs1, pairs.skip(1), j - 1);
    }
}

/// Adding touches only the named user's record.
proof fn lemma_user_sessions_add(
    m: Seq<(Seq<char>, Seq<(Seq<char>, u64)>)>,
    user: Seq<char>,
    pairs: Seq<(Seq<char>, u64)>,
)
    ensures
        user_sessions(spec_add(m, user, pairs), user) == Some(
            fold_upsert(sessions_or_empty(m, user), pairs),
        ),
    decreases m.len(),
{
    if m.len() == 0 {
    } else if m[0].0 == user {
    } else {
        lemma_user_sessions_add(m.skip(1), user, pairs);
        assert((seq![m[0]] + spec_add(m.skip(1), user, pairs)).skip(1) =~= spec_add(
            m.skip(1),
            user,
            pairs,
        ));
    }
}

/// Adding for one user leaves every other user's record untouched.
proof fn lemma_user_sessions_add_other(
    m: Seq<(Seq<char>, Seq<(Seq<char>, u64)>)>,
    user: Seq<char>,
    pairs: Seq<(Seq<char>, u64)>,
    other: Seq<char>,
)
    requires
        other != user,
    ensures
        user_sessions(spec_add(m, user, pairs), other) == user_sessions(m, other),
    decreases m.len(),
{
    let up = spec_add(m, user, pairs);
    if m.len() == 0 {
        assert(up =~= seq![(user, fold_upsert(Seq::empty(), pairs))]);
        assert(up[0].0 == user);
        assert(up.skip(1) =~= Seq::<(Seq<char>, Seq<(Seq<char>, u64)>)>::empty());
        assert(user_sessions(up.skip(1), other) is None);
    } else if m[0].0 == user {
        assert(up == m.update(0, (user, fold_upsert(m[0].1, pairs))));
        assert(up[0].0 == user);
        assert(up.skip(1) =~= m.skip(1));
    } else {
        lemma_user_sessions_add_other(m.skip(1), user, pairs, other);
        assert(up == seq![m[0]] + spec_add(m.skip(1), user, pairs));
        assert(up[0] == m[0]);
        assert(up.skip(1) =~= spec_add(m.skip(1), user, pairs));
    }
}

/// A session never seen for a user always shows variance: the suppression
/// gate lets the first notification through.
pub proof fn lemma_variance_unseen(
    m: Seq<(Seq<char>, Seq<(Seq<char>, u64)>)>,
    user: Seq<char>,
    sid: Seq<char>,
    capacity: u64,
)
    requires
        recorded(m, user, sid) is None,
    ensures
        spec_any_variance(m, user, sid, capacity),
{
}

/// Right after an add, the capacity a pair recorded (its last occurrence
/// in the batch deciding) shows no variance — an identical repeat is
/// suppressed.
pub proof fn lemma_no_variance_after_add(
    m: Seq<(Seq<char>, Seq<(Seq<char>, u64)>)>,
    user: Seq<char>,
    pairs: Seq<(Seq<char>, u64)>,
    j: int,
)
    requires
        0 <= j < pairs.len(),
        forall|k: int| j < k < pairs.len() ==> pairs[k].0 != pairs[j].0,
    ensures
        !spec_any_variance(spec_add(m, user, pairs), user, pairs[j].0, pairs[j].1),
{
    lemma_user_sessions_add(m, user, pairs);
    lemma_recorded_in_fold_last(sessions_or_empty(m, user), pairs, j);
}

/// Right after an add, any capacity other than the recorded one shows
/// variance — a changed capacity, in either direction, is re-notified.
pub proof fn lemma_variance_after_add_changed(
    m: Seq<(Seq<char>, Seq<(Seq<char>, u64)>)>,
    user: Seq<char>,
    pairs: Seq<(Seq<char>, u64)>,
    j: int,
    capacity: u64,
)
    requires
        0 <= j < pairs.len(),
        forall|k: int| j < k < pairs.len() ==> pairs[k].0 != pairs[j].0,
        capacity != pairs[j].1,
    ensures
        spec_any_variance(spec_add(m, user, pairs), user, pairs[j].0, capacity),
{
    lemma_user_sessions_add(m, user, pairs);
    lemma_recorded_in_fold_last(sessions_or_empty(m, user), pairs, j);
}

/// An add leaves the record of every session it does not name exactly as
/// it was, so variance answers for those sessions do not change.
pub proof fn lemma_add_preserves_unnamed_sessions(
    m: Seq<(Seq<char>, Seq<(Seq<char>, u64)>)>,
    user: Seq<char>,
    pairs: Seq<(Seq<char>, u64)>,
    sid: Seq<char>,
)
    requires
        forall|k: int| 0 <= k < pairs.len() ==> pairs[k].0 != sid,
    ensures
        recorded(spec_add(m, user, pairs), user, sid) == recorded(m, user, sid),
{
    lemma_user_sessions_add(m, user, pairs);
    lemma_recorded_in_fold_absent(sessions_or_empty(m, user), pairs, sid);
}

/// An add for one user changes no other user's recorded sessions, so
/// variance answers for other users do not change.
pub proof fn lemma_add_preserves_other_users(
    m: Seq<(Seq<char>, Seq<(Seq<char>, u64)>)>,
    user: Seq<char>,
    pairs: Seq<(Seq<char>, u64)>,
    other: Seq<char>,
    sid: Seq<char>,
)
    requires
        other != user,
    ensures
        recorded(spec_add(m, user, pairs), other, sid) == recorded(m, other, sid),
{
    lemma_user_sessions_add_other(m, user, pairs, other);
}

// ---------------------------------------------------------------------------
// Well-formedness is an invariant of the store.
// ---------------------------------------------------------------------------

/// When the recursive lookup misses, no entry carries the id.
proof fn lemma_recorded_in_none_converse(rs: Seq<(Seq<char>, u64)>, sid: Seq<char>)
    requires
        recorded_in(rs, sid) is None,
    ensures
        forall|k: int| 0 <= k < rs.len() ==> (#[trigger] rs[k]).0 != sid,
    decreases rs.len(),
{
    if rs.len() > 0 {
        lemma_recorded_in_none_converse(rs.skip(1), sid);
        assert forall|k: int| 0 <= k < rs.len() implies (#[trigger] rs[k]).0 != sid by {
            if k > 0 {
                assert(rs.skip(1)[k - 1] == rs[k]);
            }
        }
    }
}

/// An upsert keeps the existing ids in place; only a miss appends one.
proof fn lemma_upsert_shape(rs: Seq<(Seq<char>, u64)>, sid: Seq<char>, cap: u64)
    ensures
        upsert(rs, sid, cap).len() == if recorded_in(rs, sid) is Some {
            rs.len()
        } else {
            rs.len() + 1
        },
        forall|k: int| 0 <= k < rs.len() ==> (#[trigger] upsert(rs, sid, cap)[k]).0 == rs[k].0,
        recorded_in(rs, sid) is None ==> upsert(rs, sid, cap)[rs.len() as int].0 == sid,
    decreases rs.len(),
{
    let up = upsert(rs, sid, cap);
    if rs.len() == 0 {
        assert(up =~= seq![(sid, cap)]);
    } else if rs[0].0 == sid {
        assert(up == rs.update(0, (sid, cap)));
    } else {
        lemma_upsert_shape(rs.skip(1), sid, cap);
        let rest = upsert(rs.skip(1), sid, cap);
        assert(up == seq![rs[0]] + rest);
        assert forall|k: int| 0 <= k < rs.len() implies (#[trigger] up[k]).0 == rs[k].0 by {
            if k > 0 {
                assert(up[k] == rest[k - 1]);
                assert(rs.skip(1)[k - 1] == rs[k]);
            }
        }
        if recorded_in(rs, sid) is None {
            assert(up[rs.len() as int] == rest[rs.len() - 1]);
            assert(rs.skip(1).len() == rs.len() - 1);
        }
    }
}

/// An upsert into a well-formed entry list leaves it well-formed.
proof fn lemma_upsert_wf(rs: Seq<(Seq<char>, u64)>, sid: Seq<char>, cap: u64)
    requires
        wf_entries(rs),
    ensures
        wf_entries(upsert(rs, sid, cap)),
{
    lemma_upsert_shape(rs, sid, cap);
    let up = upsert(rs, sid, cap);
    if recorded_in(rs, sid) is Some {
        assert forall|i: int, j: int| 0 <= i < j < up.len() implies up[i].0 != up[j].0 by {
            assert(up[i].0 == rs[i].0);
            assert(up[j].0 == rs[j].0);
        }
    } else {
        lemma_recorded_in_none_converse(rs, sid);
        assert forall|i: int, j: int| 0 <= i < j < up.len() implies up[i].0 != up[j].0 by {
            assert(up[i].0 == rs[i].0);
            if j < rs.len() {
                assert(up[j].0 == rs[j].0);
            } else {
                assert(up[j].0 == sid);
            }
        }
    }
}

proof fn lemma_fold_upsert_wf(rs: Seq<(Seq<char>, u64)>, pairs: Seq<(Seq<char>, u64)>)
    requires
        wf_entries(rs),
    ensures
        wf_entries(fold_upsert(rs, pairs)),
    decreases pairs.len(),
{
    if pairs.len() > 0 {
        lemma_upsert_wf(rs, pairs[0].0, pairs[0].1);
        lemma_fold_upsert_wf(upsert(rs, pairs[0].0, pairs[0].1), pairs.skip(1));
    }
}

/// When the recursive user lookup misses, no record carries the id.
proof fn lemma_user_sessions_none_converse(
    m: Seq<(Seq<char>, Seq<(Seq<char>, u64)>)>,
    user: Seq<char>,
)
    requires
        user_sessions(m, user) is None,
    ensures
        forall|k: int| 0 <= k < m.len() ==> (#[trigger] m[k]).0 != user,
    decreases m.len(),
{
    if m.len() > 0 {
        lemma_user_sessions_none_converse(m.skip(1), user);
        assert forall|k: int| 0 <= k < m.len() implies (#[trigger] m[k]).0 != user by {
            if k > 0 {
                assert(m.skip(1)[k - 1] == m[k]);
            }
        }
    }
}

/// An add keeps the existing user ids in place and rewrites at most the
/// named user's entry list; only a miss appends a record.
proof fn lemma_add_shape(
    m: Seq<(Seq<char>, Seq<(Seq<char>, u64)>)>,
    user: Seq<char>,
    pairs: Seq<(Seq<char>, u64)>,
)
    ensures
        spec_add(m, user, pairs).len() == if user_sessions(m, user) is Some {
            m.len()
        } else {
            m.len() + 1
        },
        forall|k: int|
            0 <= k < m.len() ==> (#[trigger] spec_add(m, user, pairs)[k]).0 == m[k].0,
        forall|k: int|
            0 <= k < m.len() ==> (#[trigger] spec_add(m, user, pairs)[k]).1 == m[k].1
                || spec_add(m, user, pairs)[k].1 == fold_upsert(m[k].1, pairs),
        user_sessions(m, user) is None ==> spec_add(m, user, pairs)[m.len() as int] == (
            user,
            fold_upsert(Seq::empty(), pairs),
        ),
    decreases m.len(),
{
    let up = spec_add(m, user, pairs);
    if m.len() == 0 {
        assert(up =~= seq![(user, fold_upsert(Seq::empty(), pairs))]);
    } else if m[0].0 == user {
        assert(up == m.update(0, (user, fold_upsert(m[0].1, pairs))));
    } else {
        lemma_add_shape(m.skip(1), user, pairs);
        let rest = spec_add(m.skip(1), user, pairs);
        assert(up == seq![m[0]] + rest);
        assert forall|k: int| 0 <= k < m.len() implies (#[trigger] up[k]).0 == m[k].0 && (up[k].1
            == m[k].1 || up[k].1 == fold_upsert(m[k].1, pairs)) by {
            if k > 0 {
                assert(up[k] == rest[k - 1]);
                assert(m.skip(1)[k - 1] == m[k]);
            }
        }
        if user_sessions(m, user) is None {
            assert(up[m.len() as int] == rest[m.len() - 1]);
            assert(m.skip(1).len() == m.len() - 1);
        }
    }
}

/// The store invariant that the whole model keeps: an add never creates a
/// second record for a user nor a second entry for a session, so "at most
/// one entry per (user, session)" is preserved across every update of a
/// pass (and holds trivially of the empty store a fresh pass starts from).
pub proof fn lemma_add_preserves_wf(
    m: Seq<(Seq<char>, Seq<(Seq<char>, u64)>)>,
    user: Seq<char>,
    pairs: Seq<(Seq<char>, u64)>,
)
    requires
        wf_store(m),
    ensures
        wf_store(spec_add(m, user, pairs)),
{
    lemma_add_shape(m, user, pairs);
    let up = spec_add(m, user, pairs);
    if user_sessions(m, user) is Some {
        assert forall|i: int, j: int| 0 <= i < j < up.len() implies up[i].0 != up[j].0 by {
            assert(up[i].0 == m[i].0);
            assert(up[j].0 == m[j].0);
        }
        assert forall|i: int| 0 <= i < up.len() implies wf_entries(up[i].1) by {
            assert(wf_entries(m[i].1));
            if up[i].1 != m[i].1 {
                lemma_fold_upsert_wf(m[i].1, pairs);
            }
        }
    } else {
        lemma_user_sessions_none_converse(m, user);
        assert forall|i: int, j: int| 0 <= i < j < up.len() implies up[i].0 != up[j].0 by {
            assert(up[i].0 == m[i].0);
            if j < m.len() {
                assert(up[j].0 == m[j].0);
            } else {
                assert(up[j].0 == user);
            }
        }
        assert forall|i: int| 0 <= i < up.len() implies wf_entries(up[i].1) by {
            if i < m.len() {
                assert(wf_entries(m[i].1));
                if up[i].1 != m[i].1 {
                    lemma_fold_upsert_wf(m[i].1, pairs);
                }
            } else {
                lemma_fold_upsert_wf(Seq::empty(), pairs);
            }
        }
    }
}


// ---------------------------------------------------------------------------
// The persisted form: a JSON object mapping each user id to an array of
// [session id, capacity] pairs, capacities in thousandths of a slot.
// ---------------------------------------------------------------------------

/// The JSON text of one (session id, capacity) pair.
pub open spec fn pair_json(p: (Seq<char>, u64)) -> Seq<char> {
    seq!['['] + quoted(p.0) + seq![','] + dec_seq(p.1 as nat) + seq![']']
}

/// The JSON text of an entry list: the pairs, comma-separated.
pub open spec fn pairs_json(rs: Seq<(Seq<char>, u64)>) -> Seq<char>
    decreases rs.len(),
{
    if rs.len() == 0 {
        Seq::empty()
    } else if rs.len() == 1 {
        pair_json(rs[0])
    } else {
        pairs_json(rs.drop_last()) + seq![','] + pair_json(rs.last())
    }
}

/// The JSON text of one user's record: the quoted id, a colon, and the
/// pair array.
pub open spec fn record_json(r: (Seq<char>, Seq<(Seq<char>, u64)>)) -> Seq<char> {
    quoted(r.0) + seq![':', '['] + pairs_json(r.1) + seq![']']
}

/// The JSON text of the record list: the records, comma-separated.
pub open spec fn records_json(m: Seq<(Seq<char>, Seq<(Seq<char>, u64)>)>) -> Seq<char>
    decreases m.len(),
{
    if m.len() == 0 {
        Seq::empty()
    } else if m.len() == 1 {
        record_json(m[0])
    } else {
        records_json(m.drop_last()) + seq![','] + record_json(m.last())
    }
}

/// The full persisted text: a JSON object of all records, in store order.
pub open spec fn spec_encode(m: Seq<(Seq<char>, Seq<(Seq<char>, u64)>)>) -> Seq<char> {
    seq!['{'] + records_json(m) + seq!['}']
}

/// The byte length of the persisted text, which the store's change
/// heuristic compares.
pub open spec fn encoded_len(m: Seq<(Seq<char>, Seq<(Seq<char>, u64)>)>) -> nat {
    vstd::utf8::encode_utf8(spec_encode(m)).len()
}


/// The record list's JSON read from the front, from position `k` on.
pub open spec fn records_json_from(m: Seq<(Seq<char>, Seq<(Seq<char>, u64)>)>, k: int) -> Seq<char>
    decreases m.len() - k,
{
    if k < 0 || k >= m.len() {
        Seq::empty()
    } else if k == m.len() - 1 {
        record_json(m[k])
    } else {
        record_json(m[k]) + seq![','] + records_json_from(m, k + 1)
    }
}

/// An entry list's JSON read from the front, from position `j` on.
pub open spec fn pairs_json_from(rs: Seq<(Seq<char>, u64)>, j: int) -> Seq<char>
    decreases rs.len() - j,
{
    if j < 0 || j >= rs.len() {
        Seq::empty()
    } else if j == rs.len() - 1 {
        pair_json(rs[j])
    } else {
        pair_json(rs[j]) + seq![','] + pairs_json_from(rs, j + 1)
    }
}

proof fn lemma_records_json_cons(m: Seq<(Seq<char>, Seq<(Seq<char>, u64)>)>)
    requires
        m.len() >= 2,
    ensures
        records_json(m) == record_json(m[0]) + seq![','] + records_json(m.skip(1)),
    decreases m.len(),
{
    if m.len() == 2 {
        assert(m.drop_last() =~= seq![m[0]]);
        assert(m.skip(1) =~= seq![m[1]]);
        assert(records_json(seq![m[0]]) == record_json(seq![m[0]][0]));
        assert(records_json(seq![m[1]]) == record_json(seq![m[1]][0]));
        assert(m.last() == m[1]);
        assert(records_json(m) == records_json(seq![m[0]]) + seq![','] + record_json(m[1]));
        assert(records_json(m) =~= record_json(m[0]) + seq![','] + records_json(m.skip(1)));
    } else {
        let head = m.drop_last();
        lemma_records_json_cons(head);
        assert(head[0] == m[0]);
        assert(head.skip(1) =~= m.skip(1).drop_last());
        assert(m.skip(1).last() == m.last());
        assert(m.skip(1).len() >= 2);
        assert(records_json(m.skip(1)) == records_json(m.skip(1).drop_last()) + seq![',']
            + record_json(m.skip(1).last()));
        assert(records_json(m) =~= record_json(m[0]) + seq![','] + records_json(m.skip(1)));
    }
}

proof fn lemma_records_json_from(m: Seq<(Seq<char>, Seq<(Seq<char>, u64)>)>, k: int)
    requires
        0 <= k <= m.len(),
    ensures
        records_json_from(m, k) == records_json(m.skip(k)),
    decreases m.len() - k,
{
    if k >= m.len() {
        assert(m.skip(k) =~= Seq::<(Seq<char>, Seq<(Seq<char>, u64)>)>::empty());
    } else if k == m.len() - 1 {
        assert(m.skip(k) =~= seq![m[k]]);
        assert(records_json(m.skip(k)) =~= record_json(m[k]));
    } else {
        lemma_records_json_from(m, k + 1);
        lemma_records_json_cons(m.skip(k));
        assert(m.skip(k)[0] == m[k]);
        assert(m.skip(k).skip(1) =~= m.skip(k + 1));
    }
}

proof fn lemma_pairs_json_cons(rs: Seq<(Seq<char>, u64)>)
    requires
        rs.len() >= 2,
    ensures
        pairs_json(rs) == pair_json(rs[0]) + seq![','] + pairs_json(rs.skip(1)),
    decreases rs.len(),
{
    if rs.len() == 2 {
        assert(rs.drop_last() =~= seq![rs[0]]);
        assert(rs.skip(1) =~= seq![rs[1]]);
        assert(pairs_json(seq![rs[0]]) == pair_json(seq![rs[0]][0]));
        assert(pairs_json(seq![rs[1]]) == pair_json(seq![rs[1]][0]));
        assert(rs.last() == rs[1]);
        assert(pairs_json(rs) == pairs_json(seq![rs[0]]) + seq![','] + pair_json(rs[1]));
        assert(pairs_json(rs) =~= pair_json(rs[0]) + seq![','] + pairs_json(rs.skip(1)));
    } else {
        let head = rs.drop_last();
        lemma_pairs_json_cons(head);
        assert(head[0] == rs[0]);
        assert(head.skip(1) =~= rs.skip(1).drop_last());
        assert(rs.skip(1).last() == rs.last());
        assert(rs.skip(1).len() >= 2);
        assert(pairs_json(rs.skip(1)) == pairs_json(rs.skip(1).drop_last()) + seq![','] + pair_json(
            rs.skip(1).last(),
        ));
        assert(pairs_json(rs) =~= pair_json(rs[0]) + seq![','] + pairs_json(rs.skip(1)));
    }
}

proof fn lemma_pairs_json_from(rs: Seq<(Seq<char>, u64)>, j: int)
    requires
        0 <= j <= rs.len(),
    ensures
        pairs_json_from(rs, j) == pairs_json(rs.skip(j)),
    decreases rs.len() - j,
{
    if j >= rs.len() {
        assert(rs.skip(j) =~= Seq::<(Seq<char>, u64)>::empty());
    } else if j == rs.len() - 1 {
        assert(rs.skip(j) =~= seq![rs[j]]);
        assert(pairs_json(rs.skip(j)) =~= pair_json(rs[j]));
    } else {
        lemma_pairs_json_from(rs, j + 1);
        lemma_pairs_json_cons(rs.skip(j));
        assert(rs.skip(j)[0] == rs[j]);
        assert(rs.skip(j).skip(1) =~= rs.skip(j + 1));
    }
}

/// A non-empty record list's JSON starts with a quote.
proof fn lemma_records_json_first(m: Seq<(Seq<char>, Seq<(Seq<char>, u64)>)>)
    requires
        m.len() > 0,
    ensures
        records_json(m).len() >= 1,
        records_json(m)[0] == '"',
{
    if m.len() == 1 {
        assert(records_json(m) == record_json(m[0]));
    } else {
        lemma_records_json_cons(m);
    }
    assert(record_json(m[0])[0] == quoted(m[0].0)[0]);
    assert(quoted(m[0].0)[0] == '"');
    assert(records_json(m)[0] == record_json(m[0])[0]);
}

/// The text of `s` is exactly the persisted form of the store model `m`.
pub open spec fn encodes(s: Seq<char>, m: Seq<(Seq<char>, Seq<(Seq<char>, u64)>)>) -> bool {
    s == spec_encode(m)
}

/// Everything after one member's text: the separator and the remaining
/// members, then the closing brace.
pub open spec fn tail_after(m: Seq<(Seq<char>, Seq<(Seq<char>, u64)>)>, k: int) -> Seq<char> {
    (if k == m.len() - 1 {
        Seq::<char>::empty()
    } else {
        seq![','] + records_json_from(m, k + 1)
    }) + seq!['}']
}

/// Everything after one pair's text within a member's array.
pub open spec fn pairs_tail(
    m: Seq<(Seq<char>, Seq<(Seq<char>, u64)>)>,
    k: int,
    j: int,
) -> Seq<char> {
    (if j == m[k].1.len() - 1 {
        Seq::<char>::empty()
    } else {
        seq![','] + pairs_json_from(m[k].1, j + 1)
    }) + seq![']'] + tail_after(m, k)
}

/// A non-empty entry list's JSON starts with a bracket.
proof fn lemma_pairs_json_first(rs: Seq<(Seq<char>, u64)>)
    requires
        rs.len() > 0,
    ensures
        pairs_json(rs).len() >= 1,
        pairs_json(rs)[0] == '[',
{
    if rs.len() == 1 {
        assert(pairs_json(rs) == pair_json(rs[0]));
    } else {
        lemma_pairs_json_cons(rs);
    }
    assert(pair_json(rs[0])[0] == '[');
    assert(pairs_json(rs)[0] == pair_json(rs[0])[0]);
}

// ---------------------------------------------------------------------------
// The decoder's intermediate states: each says, of every store model the
// whole text could encode, how far the parse has come and what must
// follow.  One lemma per parsing step carries the state forward; the
// executable decoder below only chains them.
// ---------------------------------------------------------------------------

/// About to read member `model.len()`: the parsed members are a strict
/// prefix of any encoded model, and the rest of its members follow.
pub open spec fn members_open(
    s: Seq<char>,
    model: Seq<(Seq<char>, Seq<(Seq<char>, u64)>)>,
    p: int,
) -> bool {
    forall|m: Seq<(Seq<char>, Seq<(Seq<char>, u64)>)>|
        #[trigger] encodes(s, m) ==> model.len() < m.len() && model == m.take(model.len() as int)
            && s.skip(p) == records_json_from(m, model.len() as int) + seq!['}']
}

/// About to read pair `sess.len()` of member `model.len()`: its name is
/// settled and the rest of its pairs follow.
pub open spec fn pairs_open(
    s: Seq<char>,
    model: Seq<(Seq<char>, Seq<(Seq<char>, u64)>)>,
    user_view: Seq<char>,
    sess: Seq<(Seq<char>, u64)>,
    p2: int,
) -> bool {
    forall|m: Seq<(Seq<char>, Seq<(Seq<char>, u64)>)>|
        #[trigger] encodes(s, m) ==> {
            let k = model.len() as int;
            &&& k < m.len()
            &&& model == m.take(k)
            &&& m[k].0 == user_view
            &&& sess.len() < m[k].1.len()
            &&& sess == m[k].1.take(sess.len() as int)
            &&& s.skip(p2) == pairs_json_from(m[k].1, sess.len() as int) + (seq![']'] + tail_after(
                m,
                k,
            ))
        }
}

/// Member `model.len()` fully read: name and pairs are settled, and only
/// the separator or the closing brace follows.
pub open spec fn member_closed(
    s: Seq<char>,
    model: Seq<(Seq<char>, Seq<(Seq<char>, u64)>)>,
    user_view: Seq<char>,
    sess: Seq<(Seq<char>, u64)>,
    p2: int,
) -> bool {
    forall|m: Seq<(Seq<char>, Seq<(Seq<char>, u64)>)>|
        #[trigger] encodes(s, m) ==> {
            let k = model.len() as int;
            &&& k < m.len()
            &&& model == m.take(k)
            &&& m[k].0 == user_view
            &&& m[k].1 == sess
            &&& s.skip(p2) == tail_after(m, k)
        }
}

/// A member starts with its quoted name; everything to the text's end is
/// determined from there.
pub open spec fn after_user_text(m: Seq<(Seq<char>, Seq<(Seq<char>, u64)>)>, k: int) -> Seq<char> {
    seq![':'] + (seq!['['] + (pairs_json(m[k].1) + (seq![']'] + tail_after(m, k))))
}

/// A pair starts with its quoted session id; the capacity and the rest
/// follow.
pub open spec fn after_sid_text(
    m: Seq<(Seq<char>, Seq<(Seq<char>, u64)>)>,
    k: int,
    j: int,
) -> Seq<char> {
    seq![','] + (dec_seq(m[k].1[j].1 as nat) + (seq![']'] + pairs_tail(m, k, j)))
}

proof fn lemma_member_shape(
    s: Seq<char>,
    model: Seq<(Seq<char>, Seq<(Seq<char>, u64)>)>,
    p: int,
)
    requires
        0 <= p <= s.len(),
        members_open(s, model, p),
    ensures
        forall|m: Seq<(Seq<char>, Seq<(Seq<char>, u64)>)>|
            #[trigger] encodes(s, m) ==> crate::json::starts_quoted(
                s,
                p,
                m[model.len() as int].0,
                after_user_text(m, model.len() as int),
            ),
{
    let k = model.len() as int;
    assert forall|m: Seq<(Seq<char>, Seq<(Seq<char>, u64)>)>|
        #[trigger] encodes(s, m) implies crate::json::starts_quoted(
        s,
        p,
        m[k].0,
        after_user_text(m, k),
    ) by {
        assert(records_json_from(m, k) == record_json(m[k]) + (if k == m.len() - 1 {
            Seq::<char>::empty()
        } else {
            seq![','] + records_json_from(m, k + 1)
        }));
        assert(s.skip(p) =~= quoted(m[k].0) + after_user_text(m, k));
    }
}

proof fn lemma_member_user(
    s: Seq<char>,
    model: Seq<(Seq<char>, Seq<(Seq<char>, u64)>)>,
    p: int,
    q: int,
    user_view: Seq<char>,
)
    requires
        0 <= p < q <= s.len(),
        members_open(s, model, p),
        forall|x: Seq<char>, rest: Seq<char>|
            #[trigger] crate::json::starts_quoted(s, p, x, rest) ==> x == user_view && rest
                == s.skip(q),
    ensures
        forall|m: Seq<(Seq<char>, Seq<(Seq<char>, u64)>)>|
            #[trigger] encodes(s, m) ==> m[model.len() as int].0 == user_view && q + 2 < s.len()
                && s[q] == ':' && s[q + 1] == '[' && (s[q + 2] == ']' || s[q + 2] == '['),
        s[q + 2] == ']' ==> member_closed(s, model, user_view, Seq::empty(), q + 3),
        s[q + 2] != ']' ==> pairs_open(s, model, user_view, Seq::empty(), q + 2),
{
    let k = model.len() as int;
    lemma_member_shape(s, model, p);
    assert forall|m: Seq<(Seq<char>, Seq<(Seq<char>, u64)>)>|
        #[trigger] encodes(s, m) implies m[k].0 == user_view && q + 2 < s.len() && s[q] == ':'
        && s[q + 1] == '[' && (s[q + 2] == ']' || s[q + 2] == '[') && (s[q + 2] == ']'
        ==> m[k].1.len() == 0 && s.skip(q + 3) == tail_after(m, k)) && (s[q + 2] != ']'
        ==> m[k].1.len() > 0 && s.skip(q + 2) == pairs_json_from(m[k].1, 0) + (seq![']']
        + tail_after(m, k))) by {
        assert(crate::json::starts_quoted(s, p, m[k].0, after_user_text(m, k)));
        assert(s.skip(q) == after_user_text(m, k));
        assert(s.skip(q).len() == s.len() - q);
        assert(s.skip(q)[0] == s[q] && s.skip(q)[0] == ':');
        crate::json::lemma_skip_of_concat(
            s,
            q,
            seq![':'],
            seq!['['] + (pairs_json(m[k].1) + (seq![']'] + tail_after(m, k))),
        );
        crate::json::lemma_skip_of_concat(
            s,
            q + 1,
            seq!['['],
            pairs_json(m[k].1) + (seq![']'] + tail_after(m, k)),
        );
        assert(s.skip(q + 1)[0] == s[q + 1]);
        assert(s.skip(q + 2) == pairs_json(m[k].1) + (seq![']'] + tail_after(m, k)));
        assert(s.skip(q + 2).len() == s.len() - q - 2);
        assert(s.skip(q + 2)[0] == s[q + 2]);
        if m[k].1.len() == 0 {
            assert(pairs_json(m[k].1) =~= Seq::<char>::empty());
            assert(s.skip(q + 2) =~= seq![']'] + tail_after(m, k));
            assert(s[q + 2] == ']');
            crate::json::lemma_skip_of_concat(s, q + 2, seq![']'], tail_after(m, k));
        } else {
            lemma_pairs_json_first(m[k].1);
            assert(s[q + 2] == '[');
            lemma_pairs_json_from(m[k].1, 0);
            assert(m[k].1.skip(0) =~= m[k].1);
        }
    }
    if s[q + 2] == ']' {
        assert forall|m: Seq<(Seq<char>, Seq<(Seq<char>, u64)>)>|
            #[trigger] encodes(s, m) implies m[k].1 == Seq::<(Seq<char>, u64)>::empty() && s.skip(
            q + 3,
        ) == tail_after(m, k) by {
            assert(m[k].1 =~= Seq::<(Seq<char>, u64)>::empty());
        }
    }
    if s[q + 2] != ']' {
        assert forall|m: Seq<(Seq<char>, Seq<(Seq<char>, u64)>)>|
            #[trigger] encodes(s, m) implies Seq::<(Seq<char>, u64)>::empty() == m[k].1.take(0)
            && 0 < m[k].1.len() by {
            assert(Seq::<(Seq<char>, u64)>::empty() =~= m[k].1.take(0));
        }
    }
}

proof fn lemma_pair_shape(
    s: Seq<char>,
    model: Seq<(Seq<char>, Seq<(Seq<char>, u64)>)>,
    user_view: Seq<char>,
    sess: Seq<(Seq<char>, u64)>,
    p2: int,
)
    requires
        0 <= p2 <= s.len(),
        pairs_open(s, model, user_view, sess, p2),
    ensures
        forall|m: Seq<(Seq<char>, Seq<(Seq<char>, u64)>)>|
            #[trigger] encodes(s, m) ==> p2 < s.len() && s[p2] == '['
                && crate::json::starts_quoted(
                s,
                p2 + 1,
                m[model.len() as int].1[sess.len() as int].0,
                after_sid_text(m, model.len() as int, sess.len() as int),
            ),
{
    let k = model.len() as int;
    let j = sess.len() as int;
    assert forall|m: Seq<(Seq<char>, Seq<(Seq<char>, u64)>)>|
        #[trigger] encodes(s, m) implies p2 < s.len() && s[p2] == '['
        && crate::json::starts_quoted(s, p2 + 1, m[k].1[j].0, after_sid_text(m, k, j)) by {
        assert(pairs_json_from(m[k].1, j) == pair_json(m[k].1[j]) + (if j == m[k].1.len() - 1 {
            Seq::<char>::empty()
        } else {
            seq![','] + pairs_json_from(m[k].1, j + 1)
        }));
        assert(s.skip(p2) =~= seq!['['] + (quoted(m[k].1[j].0) + after_sid_text(m, k, j)));
        assert(s.skip(p2).len() == s.len() - p2);
        assert(s.skip(p2)[0] == s[p2]);
        crate::json::lemma_skip_of_concat(
            s,
            p2,
            seq!['['],
            quoted(m[k].1[j].0) + after_sid_text(m, k, j),
        );
    }
}

proof fn lemma_pair_sid(
    s: Seq<char>,
    model: Seq<(Seq<char>, Seq<(Seq<char>, u64)>)>,
    user_view: Seq<char>,
    sess: Seq<(Seq<char>, u64)>,
    p2: int,
    q1: int,
    sid_view: Seq<char>,
)
    requires
        0 <= p2,
        p2 + 1 < q1 <= s.len(),
        pairs_open(s, model, user_view, sess, p2),
        forall|x: Seq<char>, rest: Seq<char>|
            #[trigger] crate::json::starts_quoted(s, p2 + 1, x, rest) ==> x == sid_view && rest
                == s.skip(q1),
    ensures
        forall|m: Seq<(Seq<char>, Seq<(Seq<char>, u64)>)>|
            #[trigger] encodes(s, m) ==> {
                let k = model.len() as int;
                let j = sess.len() as int;
                &&& m[k].1[j].0 == sid_view
                &&& q1 < s.len()
                &&& s[q1] == ','
                &&& crate::json::starts_dec(
                    s,
                    q1 + 1,
                    m[k].1[j].1,
                    seq![']'] + pairs_tail(m, k, j),
                )
            },
{
    let k = model.len() as int;
    let j = sess.len() as int;
    lemma_pair_shape(s, model, user_view, sess, p2);
    assert forall|m: Seq<(Seq<char>, Seq<(Seq<char>, u64)>)>|
        #[trigger] encodes(s, m) implies m[k].1[j].0 == sid_view && q1 < s.len() && s[q1] == ','
        && crate::json::starts_dec(s, q1 + 1, m[k].1[j].1, seq![']'] + pairs_tail(m, k, j)) by {
        assert(crate::json::starts_quoted(s, p2 + 1, m[k].1[j].0, after_sid_text(m, k, j)));
        assert(s.skip(q1) == after_sid_text(m, k, j));
        assert(s.skip(q1).len() == s.len() - q1);
        assert(s.skip(q1)[0] == s[q1] && s.skip(q1)[0] == ',');
        crate::json::lemma_skip_of_concat(
            s,
            q1,
            seq![','],
            dec_seq(m[k].1[j].1 as nat) + (seq![']'] + pairs_tail(m, k, j)),
        );
        assert((seq![']'] + pairs_tail(m, k, j))[0] == ']');
        assert(!crate::json::is_dec_digit(']'));
    }
}

proof fn lemma_pair_cap(
    s: Seq<char>,
    model: Seq<(Seq<char>, Seq<(Seq<char>, u64)>)>,
    user_view: Seq<char>,
    sess: Seq<(Seq<char>, u64)>,
    q1: int,
    q2: int,
    sid_view: Seq<char>,
    cap: u64,
)
    requires
        0 <= q1,
        q1 + 1 < q2 <= s.len(),
        forall|m: Seq<(Seq<char>, Seq<(Seq<char>, u64)>)>|
            #[trigger] encodes(s, m) ==> {
                let k = model.len() as int;
                let j = sess.len() as int;
                &&& k < m.len()
                &&& model == m.take(k)
                &&& m[k].0 == user_view
                &&& j < m[k].1.len()
                &&& sess == m[k].1.take(j)
                &&& m[k].1[j].0 == sid_view
                &&& crate::json::starts_dec(
                    s,
                    q1 + 1,
                    m[k].1[j].1,
                    seq![']'] + pairs_tail(m, k, j),
                )
            },
        forall|w: u64, rest: Seq<char>|
            #[trigger] crate::json::starts_dec(s, q1 + 1, w, rest) ==> w == cap && rest == s.skip(
                q2,
            ),
    ensures
        forall|m: Seq<(Seq<char>, Seq<(Seq<char>, u64)>)>|
            #[trigger] encodes(s, m) ==> {
                let k = model.len() as int;
                let j = sess.len() as int;
                &&& m[k].1[j] == (sid_view, cap)
                &&& q2 + 1 < s.len()
                &&& s[q2] == ']'
                &&& (s[q2 + 1] == ',' || s[q2 + 1] == ']')
            },
        s[q2 + 1] == ',' ==> pairs_open(s, model, user_view, sess.push((sid_view, cap)), q2 + 2),
        s[q2 + 1] == ']' ==> member_closed(s, model, user_view, sess.push((sid_view, cap)), q2 + 2),
{
    let k = model.len() as int;
    let j = sess.len() as int;
    assert forall|m: Seq<(Seq<char>, Seq<(Seq<char>, u64)>)>|
        #[trigger] encodes(s, m) implies m[k].1[j] == (sid_view, cap) && q2 + 1 < s.len() && s[q2]
        == ']' && (s[q2 + 1] == ',' || s[q2 + 1] == ']') && sess.push(
        (sid_view, cap),
    ) == m[k].1.take(j + 1) && (s[q2 + 1] == ',' ==> j + 1 < m[k].1.len() && s.skip(q2 + 2)
        == pairs_json_from(m[k].1, j + 1) + (seq![']'] + tail_after(m, k))) && (s[q2 + 1] == ']'
        ==> m[k].1 == sess.push((sid_view, cap)) && s.skip(q2 + 2) == tail_after(m, k)) by {
        assert(crate::json::starts_dec(s, q1 + 1, m[k].1[j].1, seq![']'] + pairs_tail(m, k, j)));
        assert(m[k].1[j].1 == cap);
        assert(m[k].1[j] == (sid_view, cap));
        assert(s.skip(q2) == seq![']'] + pairs_tail(m, k, j));
        assert(s.skip(q2).len() == s.len() - q2);
        assert(s.skip(q2)[0] == s[q2] && s.skip(q2)[0] == ']');
        crate::json::lemma_skip_of_concat(s, q2, seq![']'], pairs_tail(m, k, j));
        assert(s.skip(q2 + 1) == pairs_tail(m, k, j));
        assert(s.skip(q2 + 1).len() == s.len() - q2 - 1);
        assert(s.skip(q2 + 1)[0] == s[q2 + 1]);
        assert(sess.push((sid_view, cap)) =~= m[k].1.take(j + 1));
        if j == m[k].1.len() - 1 {
            assert(pairs_tail(m, k, j) == Seq::<char>::empty() + seq![']'] + tail_after(m, k));
            assert(pairs_tail(m, k, j) =~= seq![']'] + tail_after(m, k));
            assert(s[q2 + 1] == ']');
            crate::json::lemma_skip_of_concat(s, q2 + 1, seq![']'], tail_after(m, k));
            assert(m[k].1 =~= m[k].1.take(j + 1));
            assert(tail_after(m, k).len() >= 1);
        } else {
            assert(pairs_tail(m, k, j) == (seq![','] + pairs_json_from(m[k].1, j + 1)) + seq![']']
                + tail_after(m, k));
            assert(pairs_tail(m, k, j) =~= seq![','] + (pairs_json_from(m[k].1, j + 1) + (seq![
                ']',
            ] + tail_after(m, k))));
            assert(s[q2 + 1] == ',');
            crate::json::lemma_skip_of_concat(
                s,
                q2 + 1,
                seq![','],
                pairs_json_from(m[k].1, j + 1) + (seq![']'] + tail_after(m, k)),
            );
        }
    }
}

proof fn lemma_member_close(
    s: Seq<char>,
    model: Seq<(Seq<char>, Seq<(Seq<char>, u64)>)>,
    user_view: Seq<char>,
    sess: Seq<(Seq<char>, u64)>,
    p2: int,
)
    requires
        0 <= p2 <= s.len(),
        member_closed(s, model, user_view, sess, p2),
    ensures
        forall|m: Seq<(Seq<char>, Seq<(Seq<char>, u64)>)>|
            #[trigger] encodes(s, m) ==> p2 < s.len() && (s[p2] == ',' || s[p2] == '}'),
        s[p2] == ',' ==> members_open(s, model.push((user_view, sess)), p2 + 1),
        s[p2] == '}' ==> forall|m: Seq<(Seq<char>, Seq<(Seq<char>, u64)>)>|
            #[trigger] encodes(s, m) ==> m == model.push((user_view, sess)) && p2 + 1 == s.len(),
{
    let k = model.len() as int;
    assert forall|m: Seq<(Seq<char>, Seq<(Seq<char>, u64)>)>|
        #[trigger] encodes(s, m) implies p2 < s.len() && (s[p2] == ',' || s[p2] == '}')
        && model.push((user_view, sess)) == m.take(k + 1) && (s[p2] == ',' ==> k + 1 < m.len()
        && s.skip(p2 + 1) == records_json_from(m, k + 1) + seq!['}']) && (s[p2] == '}' ==> m
        == model.push((user_view, sess)) && p2 + 1 == s.len()) by {
        assert(s.skip(p2) == tail_after(m, k));
        assert(s.skip(p2).len() == s.len() - p2);
        assert(s.skip(p2)[0] == s[p2]);
        assert(m[k] == (user_view, sess));
        assert(model.push((user_view, sess)) =~= m.take(k + 1));
        if k == m.len() - 1 {
            assert(tail_after(m, k) == Seq::<char>::empty() + seq!['}']);
            assert(tail_after(m, k) =~= seq!['}']);
            assert(s[p2] == '}');
            assert(p2 + 1 == s.len());
            assert(m =~= m.take(k + 1));
        } else {
            assert(tail_after(m, k) == (seq![','] + records_json_from(m, k + 1)) + seq!['}']);
            assert(tail_after(m, k) =~= seq![','] + (records_json_from(m, k + 1) + seq!['}']));
            assert(s[p2] == ',');
            crate::json::lemma_skip_of_concat(
                s,
                p2,
                seq![','],
                records_json_from(m, k + 1) + seq!['}'],
            );
        }
    }
}

/// Parses persisted JSON text back into records.  The contract pins the
/// parse completely: whatever parses re-encodes to the very input text; a
/// text that is the persisted form of some store model parses, and to
/// exactly that model — the load/store round trip; and every other text
/// is rejected, so loading falls back to the empty store, the documented
/// lossy-but-safe default for unreadable state.
#[verifier::rlimit(100)]
pub fn decode_store(s: &str) -> (r: Option<Vec<UserRecord>>)
    ensures
        match r {
            Some(entries) => {
                &&& s@ == spec_encode(records_model(entries@))
                &&& forall|m: Seq<(Seq<char>, Seq<(Seq<char>, u64)>)>|
                    s@ == #[trigger] spec_encode(m) ==> m == records_model(entries@)
            },
            None => forall|m: Seq<(Seq<char>, Seq<(Seq<char>, u64)>)>|
                s@ != #[trigger] spec_encode(m),
        },
{
    let n = s.unicode_len();
    if !expect_char(s, 0, n, '{') {
        proof {
            assert forall|m: Seq<(Seq<char>, Seq<(Seq<char>, u64)>)>| s@ != #[trigger] spec_encode(
                m,
            ) by {
                if s@ == spec_encode(m) {
                    assert(s@[0] == (seq!['{'] + records_json(m) + seq!['}'])[0]);
                }
            }
        }
        return None;
    }
    let mut entries: Vec<UserRecord> = Vec::new();
    let mut p: usize = 1;
    proof {
        assert(records_model(entries@) =~= Seq::<(Seq<char>, Seq<(Seq<char>, u64)>)>::empty());
        assert(s@.subrange(0, 1) =~= seq!['{']);
    }
    if expect_char(s, p, n, '}') {
        if p + 1 == n {
            proof {
                assert(s@ =~= seq!['{'] + records_json(records_model(entries@)) + seq!['}']);
                assert forall|m: Seq<(Seq<char>, Seq<(Seq<char>, u64)>)>|
                    s@ == #[trigger] spec_encode(m) implies m == records_model(entries@) by {
                    if m.len() > 0 {
                        lemma_records_json_first(m);
                        assert(s@[1] == (seq!['{'] + records_json(m) + seq!['}'])[1]);
                        assert(false);
                    }
                    assert(m =~= records_model(entries@));
                }
            }
            return Some(entries);
        }
        proof {
            assert forall|m: Seq<(Seq<char>, Seq<(Seq<char>, u64)>)>| s@ != #[trigger] spec_encode(
                m,
            ) by {
                if s@ == spec_encode(m) {
                    if m.len() > 0 {
                        lemma_records_json_first(m);
                        assert(s@[1] == (seq!['{'] + records_json(m) + seq!['}'])[1]);
                    } else {
                        assert(s@ =~= seq!['{', '}']);
                    }
                }
            }
        }
        return None;
    }
    proof {
        // The text is not the empty object, so under any encoding
        // hypothesis a first member waits at position 1.
        assert forall|m: Seq<(Seq<char>, Seq<(Seq<char>, u64)>)>|
            #[trigger] encodes(s@, m) implies records_model(entries@).len() < m.len()
            && records_model(entries@) == m.take(records_model(entries@).len() as int) && s@.skip(
            p as int,
        ) == records_json_from(m, records_model(entries@).len() as int) + seq!['}'] by {
            assert(s@ == seq!['{'] + (records_json(m) + seq!['}']));
            if m.len() == 0 {
                assert(s@ =~= seq!['{', '}']);
                assert(s@[1] == '}');
                assert(false);
            }
            assert(s@.skip(0) =~= s@);
            crate::json::lemma_skip_of_concat(s@, 0, seq!['{'], records_json(m) + seq!['}']);
            lemma_records_json_from(m, 0);
            assert(m.skip(0) =~= m);
            assert(records_model(entries@) =~= m.take(0));
        }
    }
    loop
        invariant_except_break
            n == s@.len(),
            1 <= p <= n,
            s@.subrange(0, p as int) == seq!['{'] + records_json(records_model(entries@)) + (
            if entries@.len() > 0 {
                seq![',']
            } else {
                Seq::<char>::empty()
            }),
            members_open(s@, records_model(entries@), p as int),
        ensures
            1 <= p <= n,
            s@.subrange(0, p as int) == seq!['{'] + records_json(records_model(entries@)) + seq![
                '}',
            ],
            forall|m: Seq<(Seq<char>, Seq<(Seq<char>, u64)>)>|
                #[trigger] encodes(s@, m) ==> m == records_model(entries@) && p == n,
        decreases n - p,
    {
        let ghost k = records_model(entries@).len() as int;
        proof {
            lemma_member_shape(s@, records_model(entries@), p as int);
        }
        let (user, q) = match parse_string(s, p, n) {
            Some(x) => x,
            None => {
                proof {
                    assert forall|m: Seq<(Seq<char>, Seq<(Seq<char>, u64)>)>| s@
                        != #[trigger] spec_encode(m) by {
                        if s@ == spec_encode(m) {
                            assert(encodes(s@, m));
                        }
                    }
                }
                return None;
            },
        };
        let ghost user_view = user@;
        proof {
            lemma_member_user(s@, records_model(entries@), p as int, q as int, user_view);
        }
        if !expect_char(s, q, n, ':') || !expect_char(s, q + 1, n, '[') {
            proof {
                assert forall|m: Seq<(Seq<char>, Seq<(Seq<char>, u64)>)>| s@ != #[trigger] spec_encode(
                    m,
                ) by {
                    if s@ == spec_encode(m) {
                        assert(encodes(s@, m));
                    }
                }
            }
            return None;
        }
        let arr_start = q + 1;
        let mut p2 = arr_start + 1;
        let mut sessions: Vec<ExclusionEntry> = Vec::new();
        proof {
            assert(entries_model(sessions@) =~= Seq::<(Seq<char>, u64)>::empty());
            assert(s@.subrange(arr_start + 1 as int, p2 as int) =~= Seq::<char>::empty());
        }
        if expect_char(s, p2, n, ']') {
            p2 = p2 + 1;
            proof {
                assert(s@.subrange(arr_start as int, p2 as int) =~= seq!['['] + pairs_json(
                    entries_model(sessions@),
                ) + seq![']']);
            }
        } else {
            proof {
                assert forall|m: Seq<(Seq<char>, Seq<(Seq<char>, u64)>)>| !(s@
                    == #[trigger] spec_encode(m) && s@[p2 as int] == ']') by {
                    if s@ == spec_encode(m) {
                        assert(encodes(s@, m));
                    }
                }
            }
            loop
                invariant_except_break
                    n == s@.len(),
                    arr_start + 1 <= p2 <= n,
                    s@[arr_start as int] == '[',
                    s@.subrange(arr_start + 1 as int, p2 as int) == pairs_json(
                        entries_model(sessions@),
                    ) + (if sessions@.len() > 0 {
                        seq![',']
                    } else {
                        Seq::<char>::empty()
                    }),
                    pairs_open(
                        s@,
                        records_model(entries@),
                        user_view,
                        entries_model(sessions@),
                        p2 as int,
                    ),
                    k == records_model(entries@).len() as int,
                ensures
                    arr_start < p2 <= n,
                    s@.subrange(arr_start as int, p2 as int) == seq!['['] + pairs_json(
                        entries_model(sessions@),
                    ) + seq![']'],
                    member_closed(
                        s@,
                        records_model(entries@),
                        user_view,
                        entries_model(sessions@),
                        p2 as int,
                    ),
                decreases n - p2,
            {
                let ghost j = entries_model(sessions@).len() as int;
                proof {
                    lemma_pair_shape(
                        s@,
                        records_model(entries@),
                        user_view,
                        entries_model(sessions@),
                        p2 as int,
                    );
                }
                if !expect_char(s, p2, n, '[') {
                    proof {
                        assert forall|m: Seq<(Seq<char>, Seq<(Seq<char>, u64)>)>| s@
                            != #[trigger] spec_encode(m) by {
                            if s@ == spec_encode(m) {
                                assert(encodes(s@, m));
                            }
                        }
                    }
                    return None;
                }
                let (sid, q1) = match parse_string(s, p2 + 1, n) {
                    Some(x) => x,
                    None => {
                        proof {
                            assert forall|m: Seq<(Seq<char>, Seq<(Seq<char>, u64)>)>| s@
                                != #[trigger] spec_encode(m) by {
                                if s@ == spec_encode(m) {
                                    assert(encodes(s@, m));
                                }
                            }
                        }
                        return None;
                    },
                };
                let ghost sid_view = sid@;
                proof {
                    lemma_pair_sid(
                        s@,
                        records_model(entries@),
                        user_view,
                        entries_model(sessions@),
                        p2 as int,
                        q1 as int,
                        sid_view,
                    );
                }
                if !expect_char(s, q1, n, ',') {
                    proof {
                        assert forall|m: Seq<(Seq<char>, Seq<(Seq<char>, u64)>)>| s@
                            != #[trigger] spec_encode(m) by {
                            if s@ == spec_encode(m) {
                                assert(encodes(s@, m));
                            }
                        }
                    }
                    return None;
                }
                let (cap, q2) = match parse_u64(s, q1 + 1, n) {
                    Some(x) => x,
                    None => {
                        proof {
                            assert forall|m: Seq<(Seq<char>, Seq<(Seq<char>, u64)>)>| s@
                                != #[trigger] spec_encode(m) by {
                                if s@ == spec_encode(m) {
                                    assert(encodes(s@, m));
                                }
                            }
                        }
                        return None;
                    },
                };
                proof {
                    lemma_pair_cap(
                        s@,
                        records_model(entries@),
                        user_view,
                        entries_model(sessions@),
                        q1 as int,
                        q2 as int,
                        sid_view,
                        cap,
                    );
                }
                if !expect_char(s, q2, n, ']') {
                    proof {
                        assert forall|m: Seq<(Seq<char>, Seq<(Seq<char>, u64)>)>| s@
                            != #[trigger] spec_encode(m) by {
                            if s@ == spec_encode(m) {
                                assert(encodes(s@, m));
                            }
                        }
                    }
                    return None;
                }
                let ghost old_model = entries_model(sessions@);
                sessions.push(ExclusionEntry { session_id: sid, capacity: cap });
                let ghost new_model = entries_model(sessions@);
                proof {
                    assert(new_model.drop_last() =~= old_model);
                    assert(new_model =~= old_model.push((sid_view, cap)));
                    assert(s@.subrange(p2 as int, (q2 + 1) as int) =~= seq!['['] + quoted(sid_view)
                        + seq![','] + dec_seq(cap as nat) + seq![']']);
                    assert(s@.subrange(p2 as int, (q2 + 1) as int) == pair_json((sid_view, cap)));
                    assert(new_model.last() == (sid_view, cap));
                    assert(s@.subrange(arr_start + 1 as int, (q2 + 1) as int) =~= s@.subrange(
                        arr_start + 1 as int,
                        p2 as int,
                    ) + s@.subrange(p2 as int, (q2 + 1) as int));
                    assert(s@.subrange(arr_start + 1 as int, (q2 + 1) as int) == pairs_json(
                        new_model,
                    ));
                }
                p2 = q2 + 1;
                if expect_char(s, p2, n, ',') {
                    p2 = p2 + 1;
                    proof {
                        assert(s@.subrange(arr_start + 1 as int, p2 as int) =~= s@.subrange(
                            arr_start + 1 as int,
                            (p2 - 1) as int,
                        ) + seq![',']);
                    }
                } else if expect_char(s, p2, n, ']') {
                    p2 = p2 + 1;
                    proof {
                        assert(s@.subrange(arr_start as int, p2 as int) =~= seq!['['] + pairs_json(
                            new_model,
                        ) + seq![']']);
                    }
                    break ;
                } else {
                    proof {
                        assert forall|m: Seq<(Seq<char>, Seq<(Seq<char>, u64)>)>| s@
                            != #[trigger] spec_encode(m) by {
                            if s@ == spec_encode(m) {
                                assert(encodes(s@, m));
                            }
                        }
                    }
                    return None;
                }
            }
        }
        let ghost old_entries_model = records_model(entries@);
        let ghost sess_model = entries_model(sessions@);
        let ghost member_start = p;
        entries.push(UserRecord { user_id: user, sessions });
        let ghost new_entries_model = records_model(entries@);
        proof {
            assert(new_entries_model.drop_last() =~= old_entries_model);
            assert(new_entries_model.last() == record_model(entries@.last()));
            assert(new_entries_model =~= old_entries_model.push((user_view, sess_model)));
            assert(s@.subrange(member_start as int, p2 as int) =~= quoted(user_view) + seq![':']
                + s@.subrange(arr_start as int, p2 as int));
            assert(s@.subrange(member_start as int, p2 as int) =~= quoted(user_view) + seq![
                ':',
                '[',
            ] + pairs_json(sess_model) + seq![']']);
            assert(s@.subrange(member_start as int, p2 as int) == record_json(
                (user_view, sess_model),
            ));
            assert(s@.subrange(0, p2 as int) =~= s@.subrange(0, member_start as int) + s@.subrange(
                member_start as int,
                p2 as int,
            ));
            assert(s@.subrange(0, p2 as int) =~= seq!['{'] + records_json(new_entries_model));
            lemma_member_close(s@, old_entries_model, user_view, sess_model, p2 as int);
        }
        p = p2;
        if expect_char(s, p, n, ',') {
            p = p + 1;
            proof {
                assert(s@.subrange(0, p as int) =~= s@.subrange(0, (p - 1) as int) + seq![',']);
            }
        } else if expect_char(s, p, n, '}') {
            p = p + 1;
            proof {
                assert(s@.subrange(0, p as int) =~= seq!['{'] + records_json(new_entries_model)
                    + seq!['}']);
                assert forall|m: Seq<(Seq<char>, Seq<(Seq<char>, u64)>)>|
                    #[trigger] encodes(s@, m) implies m == records_model(entries@) && p == n by {}
            }
            break ;
        } else {
            proof {
                assert forall|m: Seq<(Seq<char>, Seq<(Seq<char>, u64)>)>| s@ != #[trigger] spec_encode(
                    m,
                ) by {
                    if s@ == spec_encode(m) {
                        assert(encodes(s@, m));
                    }
                }
            }
            return None;
        }
    }
    if p == n {
        proof {
            assert(s@.subrange(0, n as int) =~= s@);
            assert forall|m: Seq<(Seq<char>, Seq<(Seq<char>, u64)>)>|
                s@ == #[trigger] spec_encode(m) implies m == records_model(entries@) by {
                assert(encodes(s@, m));
            }
        }
        Some(entries)
    } else {
        proof {
            assert forall|m: Seq<(Seq<char>, Seq<(Seq<char>, u64)>)>| s@ != #[trigger] spec_encode(
                m,
            ) by {
                if s@ == spec_encode(m) {
                    assert(encodes(s@, m));
                }
            }
        }
        None
    }
}

// ---------------------------------------------------------------------------
// The executable store.
// ---------------------------------------------------------------------------

/// The in-memory exclusion store, together with the serialized byte length
/// captured when it was loaded, against which the persistence decision
/// compares.
pub struct ExclusionMap {
    entries: Vec<UserRecord>,
    initial_content_length: usize,
}

impl ExclusionMap {
    /// The store's mathematical value: (user id, entry list) in order.
    pub closed spec fn records(&self) -> Seq<(Seq<char>, Seq<(Seq<char>, u64)>)> {
        records_model(self.entries@)
    }

    /// The serialized byte length captured at load time.
    pub closed spec fn baseline(&self) -> usize {
        self.initial_content_length
    }

    /// An empty store, as a pass starts from when nothing was persisted or
    /// the persisted blob was unreadable.
    pub fn new() -> (r: Self)
        ensures
            r.records() == Seq::<(Seq<char>, Seq<(Seq<char>, u64)>)>::empty(),
            r.baseline() == 0,
    {
        let r = ExclusionMap { entries: Vec::new(), initial_content_length: 0 };
        proof {
            assert(r.records() =~= Seq::<(Seq<char>, Seq<(Seq<char>, u64)>)>::empty());
        }
        r
    }

    /// A store rebuilt from loaded records, remembering the loaded blob's
    /// byte length for the change heuristic.
    pub fn from_loaded(entries: Vec<UserRecord>, initial_content_length: usize) -> (r: Self)
        ensures
            r.records() == records_model(entries@),
            r.baseline() == initial_content_length,
    {
        ExclusionMap { entries, initial_content_length }
    }

    /// Rebuilds a store from a persisted blob, remembering the blob's byte
    /// length for the change heuristic.  A blob that is the persisted form
    /// of some store loads back to exactly that store — the load/store
    /// round trip; whatever else loads is the empty store, and in every
    /// case what loads re-encodes either to the blob itself or to the
    /// empty object.
    pub fn from_blob(text: &str, content_length: usize) -> (r: ExclusionMap)
        ensures
            r.baseline() == content_length,
            r.records() == Seq::<(Seq<char>, Seq<(Seq<char>, u64)>)>::empty() || spec_encode(
                r.records(),
            ) == text@,
            forall|m: Seq<(Seq<char>, Seq<(Seq<char>, u64)>)>|
                text@ == #[trigger] spec_encode(m) ==> r.records() == m,
    {
        match decode_store(text) {
            Some(entries) => ExclusionMap::from_loaded(entries, content_length),
            None => {
                let r = ExclusionMap::from_loaded(Vec::new(), content_length);
                proof {
                    assert(r.records() =~= Seq::<(Seq<char>, Seq<(Seq<char>, u64)>)>::empty());
                }
                r
            },
        }
    }

    /// Finds the first record of `user_id`, if any.
    fn find_user(&self, user_id: &String) -> (r: Option<usize>)
        ensures
            match r {
                Some(i) => i < self.records().len() && self.records()[i as int].0 == user_id@
                    && forall|k: int| 0 <= k < i ==> (#[trigger] self.records()[k]).0 != user_id@,
                None => forall|k: int|
                    0 <= k < self.records().len() ==> (#[trigger] self.records()[k]).0
                        != user_id@,
            },
    {
        let mut i: usize = 0;
        while i < self.entries.len()
            invariant
                0 <= i <= self.entries@.len(),
                self.records().len() == self.entries@.len(),
                forall|k: int| 0 <= k < i ==> (#[trigger] self.records()[k]).0 != user_id@,
            decreases self.entries@.len() - i,
        {
            if self.entries[i].user_id == *user_id {
                return Some(i);
            }
            assert(self.records()[i as int].0 == self.entries@[i as int].user_id@);
            i = i + 1;
        }
        None
    }

    /// The suppression gate: true when the user was never recorded for the
    /// session or the recorded capacity differs from `capacity` in either
    /// direction; false only on an exact match.
    pub fn any_variance(&self, user_id: &String, session_id: &String, capacity: u64) -> (r: bool)
        ensures
            r == spec_any_variance(self.records(), user_id@, session_id@, capacity),
    {
        match self.find_user(user_id) {
            None => {
                proof {
                    lemma_user_sessions_none(self.records(), user_id@);
                }
                true
            },
            Some(i) => {
                proof {
                    lemma_user_sessions_at(self.records(), user_id@, i as int);
                }
                let sess = &self.entries[i].sessions;
                let ghost rsm = self.records()[i as int].1;
                proof {
                    assert(rsm == entries_model(sess@));
                }
                let mut j: usize = 0;
                while j < sess.len()
                    invariant
                        0 <= j <= sess@.len(),
                        rsm == entries_model(sess@),
                        rsm.len() == sess@.len(),
                        user_sessions(self.records(), user_id@) == Some(rsm),
                        forall|k: int| 0 <= k < j ==> (#[trigger] rsm[k]).0 != session_id@,
                    decreases sess@.len() - j,
                {
                    if sess[j].session_id == *session_id {
                        proof {
                            assert(rsm[j as int] == entry_model(sess@[j as int]));
                            lemma_recorded_in_at(rsm, session_id@, j as int);
                        }
                        return sess[j].capacity != capacity;
                    }
                    assert(rsm[j as int].0 == sess@[j as int].session_id@);
                    j = j + 1;
                }
                proof {
                    lemma_recorded_in_none(rsm, session_id@);
                }
                true
            },
        }
    }

    /// Upserts one (session id, capacity) into an entry list, mirroring
    /// [`upsert`].
    fn upsert_one(dst: &mut Vec<ExclusionEntry>, session_id: &String, capacity: u64)
        ensures
            entries_model(final(dst)@) == upsert(entries_model(old(dst)@), session_id@, capacity),
    {
        let ghost rs0 = entries_model(dst@);
        let mut j: usize = 0;
        while j < dst.len()
            invariant
                0 <= j <= dst@.len(),
                dst@ == old(dst)@,
                rs0 == entries_model(dst@),
                rs0.len() == dst@.len(),
                forall|k: int| 0 <= k < j ==> (#[trigger] rs0[k]).0 != session_id@,
            decreases dst@.len() - j,
        {
            if dst[j].session_id == *session_id {
                proof {
                    lemma_upsert_found(rs0, session_id@, capacity, j as int);
                }
                let _old_entry = dst.remove(j);
                dst.insert(j, ExclusionEntry { session_id: session_id.clone(), capacity });
                proof {
                    assert(entries_model(dst@) =~= rs0.update(j as int, (session_id@, capacity)));
                }
                return ;
            }
            assert(rs0[j as int].0 == dst@[j as int].session_id@);
            j = j + 1;
        }
        proof {
            lemma_upsert_absent(rs0, session_id@, capacity);
        }
        dst.push(ExclusionEntry { session_id: session_id.clone(), capacity });
        proof {
            assert(entries_model(dst@) =~= rs0.push((session_id@, capacity)));
        }
    }

    /// Upserts every matched session's pair, in order, mirroring
    /// [`fold_upsert`].
    fn upsert_all(dst: &mut Vec<ExclusionEntry>, sessions: &Vec<AlertSession>)
        ensures
            entries_model(final(dst)@) == fold_upsert(
                entries_model(old(dst)@),
                alert_pairs(sessions@),
            ),
    {
        let ghost pairs = alert_pairs(sessions@);
        let ghost rs0 = entries_model(old(dst)@);
        proof {
            assert(pairs.skip(0) =~= pairs);
        }
        let mut k: usize = 0;
        while k < sessions.len()
            invariant
                0 <= k <= sessions@.len(),
                pairs == alert_pairs(sessions@),
                pairs.len() == sessions@.len(),
                rs0 == entries_model(old(dst)@),
                fold_upsert(entries_model(dst@), pairs.skip(k as int)) == fold_upsert(rs0, pairs),
            decreases sessions@.len() - k,
        {
            let ghost before = entries_model(dst@);
            Self::upsert_one(dst, &sessions[k].session_id, sessions[k].capacity);
            proof {
                assert(pairs[k as int] == alert_pair(sessions@[k as int]));
                assert(pairs.skip(k as int)[0] == pairs[k as int]);
                assert(pairs.skip(k as int).skip(1) =~= pairs.skip(k as int + 1));
                assert(entries_model(dst@) == upsert(before, pairs[k as int].0, pairs[k as int].1));
            }
            k = k + 1;
        }
        proof {
            assert(pairs.skip(sessions@.len() as int) =~= Seq::<(Seq<char>, u64)>::empty());
        }
    }

    /// Records the given matched sessions for `user_id`: each pair updates
    /// the user's entry for that session or appends a new one; a user with
    /// no record gets a fresh one; every other entry and every other user
    /// stays exactly as it was.
    pub fn add(&mut self, user_id: &String, sessions: &Vec<AlertSession>)
        ensures
            final(self).records() == spec_add(
                old(self).records(),
                user_id@,
                alert_pairs(sessions@),
            ),
            final(self).baseline() == old(self).baseline(),
    {
        let ghost m0 = self.records();
        let ghost pairs = alert_pairs(sessions@);
        match self.find_user(user_id) {
            None => {
                proof {
                    lemma_user_sessions_none(m0, user_id@);
                    lemma_add_absent(m0, user_id@, pairs);
                }
                let mut rec = UserRecord { user_id: user_id.clone(), sessions: Vec::new() };
                proof {
                    assert(entries_model(rec.sessions@) =~= Seq::<(Seq<char>, u64)>::empty());
                }
                Self::upsert_all(&mut rec.sessions, sessions);
                self.entries.push(rec);
                proof {
                    assert(self.records() =~= m0.push(
                        (user_id@, fold_upsert(Seq::empty(), pairs)),
                    ));
                }
            },
            Some(i) => {
                proof {
                    lemma_user_sessions_at(m0, user_id@, i as int);
                    lemma_add_found(m0, user_id@, pairs, i as int);
                }
                let mut rec = self.entries.remove(i);
                let ghost base = entries_model(rec.sessions@);
                proof {
                    assert(base == m0[i as int].1);
                }
                Self::upsert_all(&mut rec.sessions, sessions);
                proof {
                    assert(rec.user_id@ == user_id@);
                }
                self.entries.insert(i, rec);
                proof {
                    assert(self.records() =~= m0.update(
                        i as int,
                        (user_id@, fold_upsert(m0[i as int].1, pairs)),
                    ));
                }
            },
        }
    }

    /// Serializes the store into its persisted JSON text.
    pub fn encode(&self) -> (r: String)
        ensures
            r@ == spec_encode(self.records()),
    {
        let ghost m = self.records();
        let mut out = String::new();
        push_char(&mut out, '{');
        let mut i: usize = 0;
        while i < self.entries.len()
            invariant
                0 <= i <= self.entries@.len(),
                m == self.records(),
                m.len() == self.entries@.len(),
                out@ == seq!['{'] + records_json(m.take(i as int)),
            decreases self.entries@.len() - i,
        {
            if i > 0 {
                push_char(&mut out, ',');
            }
            let rec = &self.entries[i];
            push_quoted(&mut out, &rec.user_id);
            push_char(&mut out, ':');
            push_char(&mut out, '[');
            let ghost rsm = m[i as int].1;
            let ghost pre = out@;
            proof {
                assert(rsm == entries_model(rec.sessions@));
            }
            let mut j: usize = 0;
            while j < rec.sessions.len()
                invariant
                    0 <= j <= rec.sessions@.len(),
                    rsm == entries_model(rec.sessions@),
                    rsm.len() == rec.sessions@.len(),
                    pre == out@.take(pre.len() as int),
                    out@ == pre + pairs_json(rsm.take(j as int)),
                decreases rec.sessions@.len() - j,
            {
                if j > 0 {
                    push_char(&mut out, ',');
                }
                push_char(&mut out, '[');
                push_quoted(&mut out, &rec.sessions[j].session_id);
                push_char(&mut out, ',');
                push_u64(&mut out, rec.sessions[j].capacity);
                push_char(&mut out, ']');
                proof {
                    assert(rsm.take(j as int + 1).drop_last() =~= rsm.take(j as int));
                    assert(rsm.take(j as int + 1).last() == rsm[j as int]);
                    assert(rsm[j as int] == entry_model(rec.sessions@[j as int]));
                    assert(out@ =~= pre + pairs_json(rsm.take(j as int + 1)));
                }
                j = j + 1;
            }
            push_char(&mut out, ']');
            proof {
                assert(rsm.take(rsm.len() as int) =~= rsm);
                assert(m.take(i as int + 1).drop_last() =~= m.take(i as int));
                assert(m.take(i as int + 1).last() == m[i as int]);
                assert(out@ =~= seq!['{'] + records_json(m.take(i as int + 1)));
            }
            i = i + 1;
        }
        push_char(&mut out, '}');
        proof {
            assert(m.take(m.len() as int) =~= m);
            assert(out@ =~= seq!['{'] + records_json(m) + seq!['}']);
        }
        out
    }

    /// The persistence decision: the serialized text to write, or nothing
    /// when its byte length equals the baseline captured at load time — the
    /// deliberately approximate change heuristic the store persists under.
    pub fn store_payload(&self) -> (r: Option<String>)
        ensures
            match r {
                Some(p) => p@ == spec_encode(self.records()) && encoded_len(self.records())
                    != self.baseline(),
                None => encoded_len(self.records()) == self.baseline(),
            },
    {
        let payload = self.encode();
        let byte_len = payload.as_str().as_bytes().len();
        if byte_len != self.initial_content_length {
            Some(payload)
        } else {
            None
        }
    }
}


} // verus!

//! Availability snapshot: centers and their bookable sessions.
//!
//! The upstream feed reports capacities as decimal numbers that are
//! semantically whole slot counts; to tolerate fractional artifacts the
//! library holds every capacity in thousandths of a slot, and "available"
//! means at least one whole slot, i.e. at least [`CAPACITY_UNIT`].

use vstd::prelude::*;

use crate::alerts::DoseFilter;

verus! {

/// One whole bookable slot, in the thousandth-of-a-slot fixed-point unit
/// that every capacity field of this crate uses.
pub const CAPACITY_UNIT: u64 = 1000;

/// A bookable slot of one center on one date, with per-dose capacities
/// in thousandths of a slot.
#[derive(Debug, Clone, PartialEq)]
pub struct Session {
    pub session_id: String,
    pub available_capacity: u64,
    pub min_age_limit: u16,
    pub date: String,
    pub slots: Vec<String>,
    pub available_capacity_dose1: u64,
    pub available_capacity_dose2: u64,
}

/// A vaccination center and its sessions, as one district's snapshot
/// reports it.
#[derive(Debug, Clone, PartialEq)]
pub struct Center {
    pub center_id: u32,
    pub name: String,
    pub state_name: String,
    pub district_name: String,
    pub block_name: String,
    pub pincode: u32,
    pub from: String,
    pub to: String,
    pub fee_type: String,
    pub sessions: Vec<Session>,
}

/// One district's availability snapshot.
#[derive(Debug, Clone, PartialEq)]
pub struct CenterResponse {
    pub centers: Vec<Center>,
}

/// The capacity field of `s` that the dose preference `dose` selects.
pub open spec fn spec_dose_capacity(dose: DoseFilter, s: Session) -> u64 {
    match dose {
        DoseFilter::Any => s.available_capacity,
        DoseFilter::First => s.available_capacity_dose1,
        DoseFilter::Second => s.available_capacity_dose2,
    }
}

/// Selects the capacity field that the dose preference governs.
pub fn dose_capacity(dose: DoseFilter, s: &Session) -> (r: u64)
    ensures
        r == spec_dose_capacity(dose, *s),
{
    match dose {
        DoseFilter::Any => s.available_capacity,
        DoseFilter::First => s.available_capacity_dose1,
        DoseFilter::Second => s.available_capacity_dose2,
    }
}

/// A center counts as available when some session has at least one whole
/// slot in its total capacity, whatever the per-dose split says.
pub open spec fn center_available(c: Center) -> bool {
    exists|i: int|
        0 <= i < c.sessions@.len() && c.sessions@[i].available_capacity >= CAPACITY_UNIT
}

/// Does any session of `c` have a whole slot of total capacity?
pub fn has_available_session(c: &Center) -> (r: bool)
    ensures
        r == center_available(*c),
{
    let mut i: usize = 0;
    while i < c.sessions.len()
        invariant
            0 <= i <= c.sessions@.len(),
            forall|j: int| 0 <= j < i ==> c.sessions@[j].available_capacity < CAPACITY_UNIT,
        decreases c.sessions@.len() - i,
    {
        if c.sessions[i].available_capacity >= CAPACITY_UNIT {
            return true;
        }
        i = i + 1;
    }
    false
}


/// Position `i` holds the last available center of `centers` that carries
/// its id — the representative that the lookup keeps when ids repeat.
pub open spec fn is_last_available(centers: Seq<Center>, i: int) -> bool {
    &&& 0 <= i < centers.len()
    &&& center_available(centers[i])
    &&& forall|j: int|
        i < j < centers.len() ==> !(center_available(#[trigger] centers[j]) && centers[j].center_id
            == centers[i].center_id)
}

/// `c` is the last available center of `centers` that carries its id.
pub open spec fn from_last_available(centers: Seq<Center>, c: Center) -> bool {
    exists|i: int| #[trigger] is_last_available(centers, i) && c == centers[i]
}

/// What the lookup must be: one entry per id of an available center, each
/// entry being the last available center with that id; centers with no
/// whole slot of total capacity are dropped entirely, whatever their
/// per-dose counts say.
pub open spec fn lookup_ok(centers: Seq<Center>, lookup: Seq<Center>) -> bool {
    &&& forall|k: int|
        0 <= k < lookup.len() ==> from_last_available(centers, #[trigger] lookup[k])
    &&& forall|i: int|
        0 <= i < centers.len() && center_available(#[trigger] centers[i]) ==> exists|k: int|
            0 <= k < lookup.len() && (#[trigger] lookup[k]).center_id == centers[i].center_id
    &&& forall|k1: int, k2: int|
        0 <= k1 < k2 < lookup.len() ==> lookup[k1].center_id != lookup[k2].center_id
}

/// Finds the first entry of `lookup` with the given id.
pub fn find_center(lookup: &Vec<Center>, center_id: u32) -> (r: Option<usize>)
    ensures
        match r {
            Some(i) => i < lookup@.len() && lookup@[i as int].center_id == center_id,
            None => forall|k: int|
                0 <= k < lookup@.len() ==> (#[trigger] lookup@[k]).center_id != center_id,
        },
{
    let mut i: usize = 0;
    while i < lookup.len()
        invariant
            0 <= i <= lookup@.len(),
            forall|k: int| 0 <= k < i ==> (#[trigger] lookup@[k]).center_id != center_id,
        decreases lookup@.len() - i,
    {
        if lookup[i].center_id == center_id {
            return Some(i);
        }
        i = i + 1;
    }
    None
}

/// Builds the availability lookup for one district: keeps only centers
/// with at least one whole slot of total capacity and keeps, for each
/// center id, the last such center reported.
pub fn build_center_lookup(centers: Vec<Center>) -> (r: Vec<Center>)
    ensures
        lookup_ok(centers@, r@),
{
    let ghost cs = centers@;
    let mut rest = centers;
    let mut lookup: Vec<Center> = Vec::new();
    let ghost mut i: int = 0;
    // Ghost bookkeeping: src[k] is the input position that lookup[k] came from.
    let ghost mut src: Seq<int> = Seq::empty();
    proof {
        assert(rest@ =~= cs.skip(0));
    }
    while rest.len() > 0
        invariant
            0 <= i <= cs.len(),
            i == cs.len() - rest@.len(),
            rest@ == cs.skip(i),
            src.len() == lookup@.len(),
            forall|k: int|
                0 <= k < lookup@.len() ==> 0 <= #[trigger] src[k] < i && center_available(
                    cs[src[k]],
                ) && lookup@[k] == cs[src[k]],
            forall|k: int, j: int|
                0 <= k < lookup@.len() && src[k] < j < i ==> !(center_available(#[trigger] cs[j])
                    && cs[j].center_id == cs[#[trigger] src[k]].center_id),
            forall|i2: int|
                0 <= i2 < i && center_available(#[trigger] cs[i2]) ==> exists|k: int|
                    0 <= k < lookup@.len() && (#[trigger] lookup@[k]).center_id
                        == cs[i2].center_id,
            forall|k1: int, k2: int|
                0 <= k1 < k2 < lookup@.len() ==> lookup@[k1].center_id != lookup@[k2].center_id,
        decreases rest@.len(),
    {
        proof {
            assert(rest@[0] == cs.skip(i)[0]);
            assert(cs.skip(i)[0] == cs[i]);
        }
        let available = has_available_session(&rest[0]);
        let c = rest.remove(0);
        proof {
            assert(c == cs[i]);
            assert(rest@ =~= cs.skip(i + 1));
        }
        let ghost old_lookup = lookup@;
        let ghost old_src = src;
        if available {
            let id = c.center_id;
            match find_center(&lookup, id) {
                Some(p) => {
                    let _replaced = lookup.remove(p);
                    lookup.insert(p, c);
                    proof {
                        assert(lookup@ =~= old_lookup.update(p as int, cs[i]));
                        src = src.update(p as int, i);
                        assert forall|k: int, j: int|
                            0 <= k < lookup@.len() && src[k] < j < i + 1 implies !(
                        center_available(#[trigger] cs[j]) && cs[j].center_id
                            == cs[#[trigger] src[k]].center_id) by {
                            if k != p as int && j == i {
                                assert(old_lookup[k].center_id == cs[old_src[k]].center_id);
                                assert(old_lookup[p as int].center_id == cs[i].center_id);
                            }
                        }
                        assert forall|i2: int|
                            0 <= i2 < i + 1 && center_available(#[trigger] cs[i2]) implies exists|
                            k: int,
                        |
                            0 <= k < lookup@.len() && (#[trigger] lookup@[k]).center_id
                                == cs[i2].center_id by {
                            if i2 == i {
                                assert(lookup@[p as int].center_id == cs[i].center_id);
                            } else {
                                let k = choose|k: int|
                                    0 <= k < old_lookup.len() && (#[trigger] old_lookup[k]).center_id
                                        == cs[i2].center_id;
                                assert(lookup@[k].center_id == old_lookup[k].center_id);
                            }
                        }
                    }
                },
                None => {
                    lookup.push(c);
                    proof {
                        assert(lookup@ =~= old_lookup.push(cs[i]));
                        src = src.push(i);
                        assert forall|k: int, j: int|
                            0 <= k < lookup@.len() && src[k] < j < i + 1 implies !(
                        center_available(#[trigger] cs[j]) && cs[j].center_id
                            == cs[#[trigger] src[k]].center_id) by {
                            if k < old_lookup.len() as int && j == i {
                                assert(old_lookup[k].center_id == cs[old_src[k]].center_id);
                                assert(old_lookup[k].center_id != cs[i].center_id);
                            }
                        }
                        assert forall|i2: int|
                            0 <= i2 < i + 1 && center_available(#[trigger] cs[i2]) implies exists|
                            k: int,
                        |
                            0 <= k < lookup@.len() && (#[trigger] lookup@[k]).center_id
                                == cs[i2].center_id by {
                            if i2 == i {
                                assert(lookup@[old_lookup.len() as int].center_id
                                    == cs[i].center_id);
                            } else {
                                let k = choose|k: int|
                                    0 <= k < old_lookup.len() && (#[trigger] old_lookup[k]).center_id
                                        == cs[i2].center_id;
                                assert(lookup@[k].center_id == old_lookup[k].center_id);
                            }
                        }
                        assert forall|k1: int, k2: int|
                            0 <= k1 < k2 < lookup@.len() implies lookup@[k1].center_id
                            != lookup@[k2].center_id by {
                            if k2 == old_lookup.len() as int {
                                assert(lookup@[k1].center_id == old_lookup[k1].center_id);
                            }
                        }
                    }
                },
            }
        } else {
            proof {
                assert(!center_available(cs[i]));
            }
        }
        proof {
            i = i + 1;
        }
    }
    proof {
        assert(i == cs.len());
        assert forall|k: int| 0 <= k < lookup@.len() implies from_last_available(
            cs,
            #[trigger] lookup@[k],
        ) by {
            assert(0 <= src[k] < cs.len());
            assert(center_available(cs[src[k]]));
            assert(lookup@[k] == cs[src[k]]);
            assert forall|j: int|
                src[k] < j < cs.len() implies !(center_available(#[trigger] cs[j])
                && cs[j].center_id == cs[src[k]].center_id) by {
                assert(0 <= k < lookup@.len() && src[k] < j < i);
            }
            assert(is_last_available(cs, src[k]));
        }
    }
    lookup
}

} // verus!

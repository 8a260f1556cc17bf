//! What an impact does to a vessel.
//!
//! A hard impact — one faster than a part survives — wrecks the vessel the part belongs
//! to: its controls are zeroed (which is what stops a wreck from continuing to burn) and
//! every joint in it is broken, so the stack comes apart and the pieces scatter. How fast
//! is too fast is measured where the velocities are; this module decides which vessels an
//! impact report wrecks.
//!
//! Two parts of the same vessel touching is not a crash: the joint solver leaves
//! neighbouring parts in permanent contact, and turning makes them grind. And a crash
//! produces a contact per part per tick while the wreck settles, so a vessel is wrecked at
//! most once — whether the repeat arrives in a later tick or the same one.

use vstd::prelude::*;

verus! {

/// A part touched something.
#[derive(Debug, Clone, Copy, PartialEq, Eq, Structural)]
pub struct ImpactReport {
    pub part: u64,
    /// What it hit: terrain, another vessel, or another part.
    pub other: u64,
    /// Whether the closing speed exceeded what a part survives.
    pub hard: bool,
}

/// Which vessel a part belongs to.
#[derive(Debug, Clone, Copy, PartialEq, Eq, Structural)]
pub struct PartOwner {
    pub part: u64,
    pub vessel: u64,
}

/// A vessel, and whether it has already been wrecked.
#[derive(Debug, Clone, Copy, PartialEq, Eq, Structural)]
pub struct VesselStatus {
    pub vessel: u64,
    pub destroyed: bool,
}

/// The vessel a lookup of part `e` finds.
pub open spec fn owner_of(owners: Seq<PartOwner>, e: u64) -> Option<u64>
    decreases owners.len(),
{
    if owners.len() == 0 {
        None
    } else if owners[0].part == e {
        Some(owners[0].vessel)
    } else {
        owner_of(owners.drop_first(), e)
    }
}

/// Whether a lookup of vessel `v` finds it already wrecked (`None`: no such vessel).
pub open spec fn status_of(vessels: Seq<VesselStatus>, v: u64) -> Option<bool>
    decreases vessels.len(),
{
    if vessels.len() == 0 {
        None
    } else if vessels[0].vessel == v {
        Some(vessels[0].destroyed)
    } else {
        status_of(vessels.drop_first(), v)
    }
}

/// The vessels wrecked by the first `n` impacts, in the order they were wrecked.
pub open spec fn wrecked_by(
    impacts: Seq<ImpactReport>,
    owners: Seq<PartOwner>,
    vessels: Seq<VesselStatus>,
    n: int,
) -> Seq<u64>
    decreases n,
{
    if n <= 0 {
        Seq::empty()
    } else {
        let earlier = wrecked_by(impacts, owners, vessels, n - 1);
        let hit = impacts[n - 1];
        match owner_of(owners, hit.part) {
            Some(v) => if hit.hard && owner_of(owners, hit.other) != Some(v) && status_of(vessels, v) == Some(false)
                && !earlier.contains(v) {
                earlier.push(v)
            } else {
                earlier
            },
            None => earlier,
        }
    }
}

fn owner_lookup(owners: &Vec<PartOwner>, e: u64) -> (found: Option<u64>)
    ensures
        found == owner_of(owners@, e),
{
    let mut i: usize = 0;
    proof {
        assert(owners@.subrange(0, owners@.len() as int) =~= owners@);
    }
    while i < owners.len()
        invariant
            i <= owners@.len(),
            owner_of(owners@, e) == owner_of(owners@.subrange(i as int, owners@.len() as int), e),
        decreases owners.len() - i,
    {
        proof {
            assert(owners@.subrange(i as int, owners@.len() as int).drop_first()
                =~= owners@.subrange(i + 1, owners@.len() as int));
        }
        if owners[i].part == e {
            return Some(owners[i].vessel);
        }
        i += 1;
    }
    None
}

fn status_lookup(vessels: &Vec<VesselStatus>, v: u64) -> (found: Option<bool>)
    ensures
        found == status_of(vessels@, v),
{
    let mut i: usize = 0;
    proof {
        assert(vessels@.subrange(0, vessels@.len() as int) =~= vessels@);
    }
    while i < vessels.len()
        invariant
            i <= vessels@.len(),
            status_of(vessels@, v) == status_of(vessels@.subrange(i as int, vessels@.len() as int), v),
        decreases vessels.len() - i,
    {
        proof {
            assert(vessels@.subrange(i as int, vessels@.len() as int).drop_first()
                =~= vessels@.subrange(i + 1, vessels@.len() as int));
        }
        if vessels[i].vessel == v {
            return Some(vessels[i].destroyed);
        }
        i += 1;
    }
    None
}

fn contains_vessel(list: &Vec<u64>, v: u64) -> (found: bool)
    ensures
        found == list@.contains(v),
{
    let mut i: usize = 0;
    while i < list.len()
        invariant
            i <= list@.len(),
            forall|j: int| 0 <= j < i ==> #[trigger] list@[j] != v,
        decreases list.len() - i,
    {
        if list[i] == v {
            return true;
        }
        i += 1;
    }
    false
}

proof fn lemma_wrecked_properties(
    impacts: Seq<ImpactReport>,
    owners: Seq<PartOwner>,
    vessels: Seq<VesselStatus>,
    n: int,
)
    requires
        0 <= n <= impacts.len(),
    ensures
        wrecked_by(impacts, owners, vessels, n).no_duplicates(),
        forall|k: int| 0 <= k < wrecked_by(impacts, owners, vessels, n).len() ==> {
            let v = #[trigger] wrecked_by(impacts, owners, vessels, n)[k];
            &&& status_of(vessels, v) == Some(false)
            &&& exists|i: int| 0 <= i < n && impacts[i].hard && owner_of(owners, #[trigger] impacts[i].part) == Some(v)
                && owner_of(owners, impacts[i].other) != Some(v)
        },
    decreases n,
{
    if n > 0 {
        lemma_wrecked_properties(impacts, owners, vessels, n - 1);
        let earlier = wrecked_by(impacts, owners, vessels, n - 1);
        let now = wrecked_by(impacts, owners, vessels, n);
        assert forall|k: int| 0 <= k < now.len() implies {
            let v = #[trigger] now[k];
            &&& status_of(vessels, v) == Some(false)
            &&& exists|i: int| 0 <= i < n && impacts[i].hard && owner_of(owners, #[trigger] impacts[i].part) == Some(v)
                && owner_of(owners, impacts[i].other) != Some(v)
        } by {
            if k < earlier.len() {
                assert(now[k] == earlier[k]);
                let v = earlier[k];
                let i = choose|i: int| 0 <= i < n - 1 && impacts[i].hard && owner_of(owners, #[trigger] impacts[i].part) == Some(v)
                    && owner_of(owners, impacts[i].other) != Some(v);
                assert(0 <= i < n);
            } else {
                assert(owner_of(owners, impacts[n - 1].part) == Some(now[k]));
            }
        }
    }
}

/// Law: every hard impact counts, whatever else the batch holds. A hard impact on a part
/// of an existing, intact vessel, against anything that is not part of that same vessel,
/// leaves that vessel in the wrecked list — gentle contacts before or after it change
/// nothing.
pub proof fn lemma_every_hard_impact_wrecks_its_vessel(
    impacts: Seq<ImpactReport>,
    owners: Seq<PartOwner>,
    vessels: Seq<VesselStatus>,
    i: int,
    v: u64,
)
    requires
        0 <= i < impacts.len(),
        impacts[i].hard,
        owner_of(owners, impacts[i].part) == Some(v),
        owner_of(owners, impacts[i].other) != Some(v),
        status_of(vessels, v) == Some(false),
    ensures
        wrecked_by(impacts, owners, vessels, impacts.len() as int).contains(v),
{
    lemma_wrecked_stays_wrecked(impacts, owners, vessels, i, v, impacts.len() as int);
}

proof fn lemma_wrecked_stays_wrecked(
    impacts: Seq<ImpactReport>,
    owners: Seq<PartOwner>,
    vessels: Seq<VesselStatus>,
    i: int,
    v: u64,
    n: int,
)
    requires
        0 <= i < n <= impacts.len(),
        impacts[i].hard,
        owner_of(owners, impacts[i].part) == Some(v),
        owner_of(owners, impacts[i].other) != Some(v),
        status_of(vessels, v) == Some(false),
    ensures
        wrecked_by(impacts, owners, vessels, n).contains(v),
    decreases n,
{
    let earlier = wrecked_by(impacts, owners, vessels, n - 1);
    let now = wrecked_by(impacts, owners, vessels, n);
    if n - 1 == i {
        if !earlier.contains(v) {
            assert(now == earlier.push(v));
            assert(now[earlier.len() as int] == v);
        }
    } else {
        lemma_wrecked_stays_wrecked(impacts, owners, vessels, i, v, n - 1);
    }
    if earlier.contains(v) && now != earlier {
        let k = choose|k: int| 0 <= k < earlier.len() && earlier[k] == v;
        assert(now[k] == v);
    }
}

/// Decides which vessels a batch of impact reports wrecks, in the order they are wrecked.
///
/// A report wrecks the vessel its part belongs to when it is hard, the thing hit is not
/// part of the same vessel, and the vessel exists and is not already wrecked — counting
/// both earlier ticks and earlier reports in this batch. No vessel is listed twice.
pub fn destroy_on_impact(
    impacts: &Vec<ImpactReport>,
    owners: &Vec<PartOwner>,
    vessels: &Vec<VesselStatus>,
) -> (wrecked: Vec<u64>)
    ensures
        wrecked@ == wrecked_by(impacts@, owners@, vessels@, impacts@.len() as int),
        wrecked@.no_duplicates(),
        forall|k: int| 0 <= k < wrecked@.len() ==> {
            let v = #[trigger] wrecked@[k];
            &&& status_of(vessels@, v) == Some(false)
            &&& exists|i: int| 0 <= i < impacts@.len() && impacts@[i].hard
                && owner_of(owners@, #[trigger] impacts@[i].part) == Some(v)
                && owner_of(owners@, impacts@[i].other) != Some(v)
        },
        forall|i: int| 0 <= i < impacts@.len() && impacts@[i].hard ==> {
            let v = owner_of(owners@, #[trigger] impacts@[i].part);
            v is Some && owner_of(owners@, impacts@[i].other) != v && status_of(vessels@, v->0) == Some(false)
                ==> wrecked@.contains(v->0)
        },
{
    let mut wrecked: Vec<u64> = Vec::new();
    let mut i: usize = 0;
    while i < impacts.len()
        invariant
            i <= impacts@.len(),
            wrecked@ == wrecked_by(impacts@, owners@, vessels@, i as int),
        decreases impacts.len() - i,
    {
        let hit = impacts[i];
        if hit.hard {
            if let Some(v) = owner_lookup(owners, hit.part) {
                let same_vessel = match owner_lookup(owners, hit.other) {
                    Some(w) => w == v,
                    None => false,
                };
                if !same_vessel {
                    if let Some(destroyed) = status_lookup(vessels, v) {
                        if !destroyed && !contains_vessel(&wrecked, v) {
                            wrecked.push(v);
                        }
                    }
                }
            }
        }
        i += 1;
    }
    proof {
        lemma_wrecked_properties(impacts@, owners@, vessels@, impacts@.len() as int);
        assert forall|i: int| 0 <= i < impacts@.len() && impacts@[i].hard implies {
            let v = owner_of(owners@, #[trigger] impacts@[i].part);
            v is Some && owner_of(owners@, impacts@[i].other) != v && status_of(vessels@, v->0) == Some(false)
                ==> wrecked@.contains(v->0)
        } by {
            let v = owner_of(owners@, impacts@[i].part);
            if v is Some && owner_of(owners@, impacts@[i].other) != v && status_of(vessels@, v->0) == Some(false) {
                lemma_every_hard_impact_wrecks_its_vessel(impacts@, owners@, vessels@, i, v->0);
            }
        }
    }
    wrecked
}

} // verus!

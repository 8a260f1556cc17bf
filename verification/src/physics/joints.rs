//! Structural failure bookkeeping: when an overloaded joint actually breaks.
//!
//! The joints system reads the constraint impulses out of the solver every tick and
//! compares them against the limits parsed from Lua (that comparison is floating point and
//! happens where the solver is). What is decided here is what an overload *means*.
//!
//! A single overloaded tick is not a failure. A rigid contact at 50 Hz arrests a vessel
//! inside one step, and the impulse that takes is enormous however gently it arrived —
//! breaking on it would make every landing fatal. A real structural overload lasts as long
//! as its cause, so a joint breaks only once it has been over its limit for
//! [`TICKS_OVER_LIMIT_BEFORE_FAILURE`] consecutive ticks. Counters exist only for joints
//! that still exist: a joint that goes away — through staging, a failure, or its vessel
//! being deleted — takes its counter with it.

use std::collections::HashMap;
use vstd::prelude::*;

verus! {

broadcast use vstd::std_specs::hash::group_hash_axioms;

/// Consecutive overloaded ticks after which a joint breaks (three ticks is 60 ms).
pub const TICKS_OVER_LIMIT_BEFORE_FAILURE: u32 = 3;

/// What the solver reported for a joint this tick.
#[derive(Debug, Clone, Copy, PartialEq, Eq, Structural)]
pub enum JointReading {
    /// The joint exists but the solver has no impulses for it this tick; its count is
    /// left as it was.
    Unread,
    /// Within all of its (authored, non-zero) limits.
    WithinLimits,
    /// Over at least one of its limits.
    Overloaded,
}

/// One live joint, and what the solver reported for it this tick.
#[derive(Debug, Clone, Copy, PartialEq, Eq, Structural)]
pub struct JointObservation {
    /// The part that owns the joint.
    pub joint: u64,
    pub reading: JointReading,
}

/// A joint's overload counter after one more observation. Saturates rather than wraps.
pub open spec fn next_count(previous: u32, overloaded: bool) -> u32 {
    if !overloaded {
        0
    } else if previous < u32::MAX {
        (previous + 1) as u32
    } else {
        previous
    }
}

/// A joint's counter, reading an absent one as zero.
pub open spec fn count_in(counts: Map<u64, u32>, joint: u64) -> u32 {
    if counts.contains_key(joint) {
        counts[joint]
    } else {
        0
    }
}

/// The counters after the first `n` observations of a tick.
pub open spec fn counts_after(counts: Map<u64, u32>, observed: Seq<JointObservation>, n: int) -> Map<u64, u32>
    decreases n,
{
    if n <= 0 {
        counts
    } else {
        let before = counts_after(counts, observed, n - 1);
        let o = observed[n - 1];
        match o.reading {
            JointReading::Unread => before,
            JointReading::WithinLimits => before.insert(o.joint, 0),
            JointReading::Overloaded => before.insert(o.joint, next_count(count_in(before, o.joint), true)),
        }
    }
}

/// The joints that broke during the first `n` observations of a tick, in order.
pub open spec fn failures_after(counts: Map<u64, u32>, observed: Seq<JointObservation>, n: int) -> Seq<u64>
    decreases n,
{
    if n <= 0 {
        Seq::empty()
    } else {
        let before = counts_after(counts, observed, n - 1);
        let o = observed[n - 1];
        let rest = failures_after(counts, observed, n - 1);
        if o.reading == JointReading::Overloaded && next_count(count_in(before, o.joint), true)
            >= TICKS_OVER_LIMIT_BEFORE_FAILURE {
            rest.push(o.joint)
        } else {
            rest
        }
    }
}

/// The joints that exist this tick, read or not.
pub open spec fn observed_joints(observed: Seq<JointObservation>) -> Set<u64> {
    Set::new(|j: u64| exists|i: int| 0 <= i < observed.len() && #[trigger] observed[i].joint == j)
}

/// The counters carried into the next tick: this tick's, for the joints that still exist.
pub open spec fn counters_for_next_tick(counts: Map<u64, u32>, observed: Seq<JointObservation>) -> Map<u64, u32> {
    counts_after(counts, observed, observed.len() as int).restrict(observed_joints(observed))
}

/// Per-joint counts of consecutive overloaded ticks.
pub struct JointOverloadTracker {
    ticks_over_limit: HashMap<u64, u32>,
}

impl JointOverloadTracker {
    /// The current counters.
    pub closed spec fn counts(self) -> Map<u64, u32> {
        self.ticks_over_limit@
    }

    /// A tracker that has seen nothing.
    pub fn new() -> (tracker: Self)
        ensures
            tracker.counts() == Map::<u64, u32>::empty(),
    {
        JointOverloadTracker { ticks_over_limit: HashMap::new() }
    }

    /// Records one tick's observations and returns the joints that broke, in order.
    ///
    /// A joint within its limits has its counter reset; an overloaded one has it
    /// advanced, and breaks once it reaches [`TICKS_OVER_LIMIT_BEFORE_FAILURE`]; an unread
    /// one keeps its counter. Counters of joints that no longer exist are dropped.
    pub fn observe(&mut self, observed: &Vec<JointObservation>) -> (failed: Vec<u64>)
        ensures
            failed@ == failures_after(old(self).counts(), observed@, observed@.len() as int),
            final(self).counts() == counters_for_next_tick(old(self).counts(), observed@),
    {
        let ghost start = self.ticks_over_limit@;
        let mut failed: Vec<u64> = Vec::new();
        let mut i: usize = 0;
        while i < observed.len()
            invariant
                i <= observed@.len(),
                self.ticks_over_limit@ == counts_after(start, observed@, i as int),
                failed@ == failures_after(start, observed@, i as int),
            decreases observed.len() - i,
        {
            let o = observed[i];
            match o.reading {
                JointReading::Unread => {},
                JointReading::WithinLimits => {
                    self.ticks_over_limit.insert(o.joint, 0);
                },
                JointReading::Overloaded => {
                    let previous: u32 = match self.ticks_over_limit.get(&o.joint) {
                        Some(c) => *c,
                        None => 0,
                    };
                    let next = previous.saturating_add(1);
                    self.ticks_over_limit.insert(o.joint, next);
                    if next >= TICKS_OVER_LIMIT_BEFORE_FAILURE {
                        failed.push(o.joint);
                    }
                },
            }
            i += 1;
        }
        let ghost all = self.ticks_over_limit@;
        let mut kept: HashMap<u64, u32> = HashMap::new();
        let mut k: usize = 0;
        while k < observed.len()
            invariant
                k <= observed@.len(),
                all == counts_after(start, observed@, observed@.len() as int),
                self.ticks_over_limit@ == all,
                kept@ == all.restrict(Set::new(|j: u64| exists|x: int| 0 <= x < k && #[trigger] observed@[x].joint == j)),
            decreases observed.len() - k,
        {
            let joint = observed[k].joint;
            if let Some(count) = self.ticks_over_limit.get(&joint) {
                kept.insert(joint, *count);
            }
            proof {
                assert(kept@ =~= all.restrict(Set::new(|j: u64| exists|x: int| 0 <= x < k + 1 && #[trigger] observed@[x].joint == j))) by {
                    assert(observed@[k as int].joint == joint);
                }
            }
            k += 1;
        }
        proof {
            assert(kept@ =~= counters_for_next_tick(start, observed@));
        }
        self.ticks_over_limit = kept;
        failed
    }
}

/// The failures of a whole tick.
pub open spec fn tick_failures(counts: Map<u64, u32>, observed: Seq<JointObservation>) -> Seq<u64> {
    failures_after(counts, observed, observed.len() as int)
}

/// A joint's counter after one observation of it.
pub open spec fn count_after_reading(previous: u32, reading: JointReading) -> u32 {
    match reading {
        JointReading::Unread => previous,
        JointReading::WithinLimits => 0,
        JointReading::Overloaded => next_count(previous, true),
    }
}

/// `joint` is observed exactly once in `tick`, with `reading`; the other observations
/// are of other joints and may be anything.
pub open spec fn observed_once(tick: Seq<JointObservation>, joint: u64, reading: JointReading) -> bool {
    exists|p: int|
        0 <= p < tick.len() && #[trigger] tick[p] == JointObservation { joint, reading } && forall|q: int|
            0 <= q < tick.len() && q != p ==> #[trigger] tick[q].joint != joint
}

/// Observations of other joints leave `joint`'s counter alone; its own observation at `p`
/// applies its reading.
proof fn lemma_count_of_one_joint(counts: Map<u64, u32>, tick: Seq<JointObservation>, joint: u64, p: int, n: int)
    requires
        0 <= p < tick.len(),
        tick[p].joint == joint,
        forall|q: int| 0 <= q < tick.len() && q != p ==> #[trigger] tick[q].joint != joint,
        0 <= n <= tick.len(),
    ensures
        count_in(counts_after(counts, tick, n), joint) == if n <= p {
            count_in(counts, joint)
        } else {
            count_after_reading(count_in(counts, joint), tick[p].reading)
        },
    decreases n,
{
    if n > 0 {
        lemma_count_of_one_joint(counts, tick, joint, p, n - 1);
        if n - 1 != p {
            assert(tick[n - 1].joint != joint);
        }
    }
}

/// Only `joint`'s own observation can list it as failed, and it does exactly when that
/// observation takes its counter to the limit.
proof fn lemma_failures_of_one_joint(counts: Map<u64, u32>, tick: Seq<JointObservation>, joint: u64, p: int, n: int)
    requires
        0 <= p < tick.len(),
        tick[p].joint == joint,
        forall|q: int| 0 <= q < tick.len() && q != p ==> #[trigger] tick[q].joint != joint,
        0 <= n <= tick.len(),
    ensures
        failures_after(counts, tick, n).contains(joint) <==> (n > p && tick[p].reading == JointReading::Overloaded
            && next_count(count_in(counts, joint), true) >= TICKS_OVER_LIMIT_BEFORE_FAILURE),
    decreases n,
{
    if n > 0 {
        lemma_failures_of_one_joint(counts, tick, joint, p, n - 1);
        lemma_count_of_one_joint(counts, tick, joint, p, n - 1);
        let rest = failures_after(counts, tick, n - 1);
        let s = failures_after(counts, tick, n);
        let x = tick[n - 1].joint;
        if n - 1 != p {
            assert(x != joint);
        }
        if s != rest {
            assert(s == rest.push(x));
            if rest.contains(joint) {
                let k = choose|k: int| 0 <= k < rest.len() && rest[k] == joint;
                assert(s[k] == joint);
            }
            if x == joint {
                assert(s[rest.len() as int] == joint);
            }
            if s.contains(joint) {
                let k = choose|k: int| 0 <= k < s.len() && s[k] == joint;
                if k < rest.len() {
                    assert(rest[k] == joint);
                }
            }
        }
    }
}

/// Law: the per-tick rule for one joint, whatever else the tick holds. A joint observed
/// once in a tick leaves it with its counter advanced by an overload, cleared by a tick
/// within limits, or kept by an unread tick; and it is among the tick's failures exactly
/// when an overload takes its counter to [`TICKS_OVER_LIMIT_BEFORE_FAILURE`].
pub proof fn lemma_one_tick_of_a_joint(
    counts: Map<u64, u32>,
    tick: Seq<JointObservation>,
    joint: u64,
    reading: JointReading,
)
    requires
        observed_once(tick, joint, reading),
    ensures
        count_in(counters_for_next_tick(counts, tick), joint) == count_after_reading(count_in(counts, joint), reading),
        tick_failures(counts, tick).contains(joint) <==> (reading == JointReading::Overloaded
            && next_count(count_in(counts, joint), true) >= TICKS_OVER_LIMIT_BEFORE_FAILURE),
{
    let p = choose|p: int|
        0 <= p < tick.len() && #[trigger] tick[p] == JointObservation { joint, reading } && forall|q: int|
            0 <= q < tick.len() && q != p ==> #[trigger] tick[q].joint != joint;
    let n = tick.len() as int;
    lemma_count_of_one_joint(counts, tick, joint, p, n);
    lemma_failures_of_one_joint(counts, tick, joint, p, n);
    assert(observed_joints(tick).contains(joint)) by {
        assert(tick[p].joint == joint);
    }
    let all = counts_after(counts, tick, n);
    if all.contains_key(joint) {
        assert(counters_for_next_tick(counts, tick).contains_key(joint));
        assert(counters_for_next_tick(counts, tick)[joint] == all[joint]);
    } else {
        assert(!counters_for_next_tick(counts, tick).contains_key(joint));
    }
}

/// Law: a joint breaks on its third consecutive overloaded tick, and not before.
///
/// Starting from a joint with no overload history, observing it overloaded once in each
/// of three ticks — whatever the other joints of the vessel report in them — breaks it on
/// the third tick and on neither of the first two.
pub proof fn lemma_three_overloaded_ticks_break_a_joint(
    counts: Map<u64, u32>,
    joint: u64,
    t1: Seq<JointObservation>,
    t2: Seq<JointObservation>,
    t3: Seq<JointObservation>,
)
    requires
        count_in(counts, joint) == 0,
        observed_once(t1, joint, JointReading::Overloaded),
        observed_once(t2, joint, JointReading::Overloaded),
        observed_once(t3, joint, JointReading::Overloaded),
    ensures
        ({
            let c1 = counters_for_next_tick(counts, t1);
            let c2 = counters_for_next_tick(c1, t2);
            &&& !tick_failures(counts, t1).contains(joint)
            &&& !tick_failures(c1, t2).contains(joint)
            &&& tick_failures(c2, t3).contains(joint)
        }),
{
    let c1 = counters_for_next_tick(counts, t1);
    let c2 = counters_for_next_tick(c1, t2);
    lemma_one_tick_of_a_joint(counts, t1, joint, JointReading::Overloaded);
    assert(count_in(c1, joint) == 1);
    lemma_one_tick_of_a_joint(c1, t2, joint, JointReading::Overloaded);
    assert(count_in(c2, joint) == 2);
    lemma_one_tick_of_a_joint(c2, t3, joint, JointReading::Overloaded);
}

/// Law: a tick within limits clears a joint's overload history, whatever the other joints
/// report in it: the joint does not break that tick, and its count afterwards is zero.
pub proof fn lemma_a_calm_tick_resets_a_joint(counts: Map<u64, u32>, joint: u64, tick: Seq<JointObservation>)
    requires
        observed_once(tick, joint, JointReading::WithinLimits),
    ensures
        !tick_failures(counts, tick).contains(joint),
        count_in(counters_for_next_tick(counts, tick), joint) == 0,
{
    lemma_one_tick_of_a_joint(counts, tick, joint, JointReading::WithinLimits);
}

/// Law: a tick the solver did not report on for a joint neither breaks it nor changes its
/// count, whatever the other joints report in it.
pub proof fn lemma_an_unread_tick_keeps_the_count(counts: Map<u64, u32>, joint: u64, tick: Seq<JointObservation>)
    requires
        observed_once(tick, joint, JointReading::Unread),
    ensures
        !tick_failures(counts, tick).contains(joint),
        count_in(counters_for_next_tick(counts, tick), joint) == count_in(counts, joint),
{
    lemma_one_tick_of_a_joint(counts, tick, joint, JointReading::Unread);
}

/// Law: only joints observed this tick keep a counter.
pub proof fn lemma_vanished_joints_lose_their_counters(counts: Map<u64, u32>, observed: Seq<JointObservation>, joint: u64)
    requires
        forall|i: int| 0 <= i < observed.len() ==> #[trigger] observed[i].joint != joint,
    ensures
        !counters_for_next_tick(counts, observed).contains_key(joint),
{
}

} // verus!

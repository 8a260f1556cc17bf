//! Staging — firing decouplers and splitting one vessel into two.
//!
//! Asking to stage is input: a one-shot latch on the vessel's controls (or the space bar),
//! turned into a [`StageActivated`] and an incremented [`CurrentStage`] in exactly one
//! place, [`request_stage`]. Every decoupler armed for that stage fires once. Firing
//! destroys the decoupler's joint to the part below it, and whatever can no longer be
//! reached from the decoupler through the remaining joints becomes a new vessel.
//!
//! Parts are identified by their entity bits (`u64`); the application converts.

use vstd::prelude::*;

verus! {

/// Which stage fires next when the player presses stage.
#[derive(Debug, Clone, Copy, PartialEq, Eq, Structural)]
pub struct CurrentStage(pub u32);

/// The player (or the scripted pilot) staged: this stage number fires.
#[derive(Debug, Clone, Copy, PartialEq, Eq, Structural)]
pub struct StageActivated(pub u32);

/// Turns the stage latch, or a press of the stage key, into a [`StageActivated`].
///
/// Both routes land here so that advancing [`CurrentStage`] happens in exactly one place:
/// each request fires the stage the vessel was on and advances it by exactly one, so no
/// stage is ever skipped. The latch is always left cleared.
pub fn request_stage(
    stage: &mut CurrentStage,
    latch: &mut bool,
    key_pressed: bool,
) -> (staged: Option<StageActivated>)
    requires
        (*old(latch) || key_pressed) ==> old(stage).0 < u32::MAX,
    ensures
        *final(latch) == false,
        (*old(latch) || key_pressed) ==> staged == Some(StageActivated(old(stage).0))
            && final(stage).0 == old(stage).0 + 1,
        !(*old(latch) || key_pressed) ==> staged is None && *final(stage) == *old(stage),
{
    let requested = *latch;
    if requested {
        *latch = false;
    }
    if !requested && !key_pressed {
        return None;
    }
    let fired = StageActivated(stage.0);
    stage.0 = stage.0 + 1;
    Some(fired)
}

/// The arming state of one decoupler: the stage it fires on, and whether it already has.
#[derive(Debug, Clone, Copy, PartialEq, Eq, Structural)]
pub struct DecouplerState {
    /// Stage number this fires on. Lower fires first.
    pub stage: u32,
    /// Set once it has fired — a decoupler is a one-shot device.
    pub fired: bool,
}

/// Whether a decoupler in state `d` fires when `activated` is staged.
pub open spec fn fires_on(d: DecouplerState, activated: u32) -> bool {
    !d.fired && d.stage == activated
}

/// The state of a decoupler after `activated` is staged.
pub open spec fn after_stage(d: DecouplerState, activated: u32) -> DecouplerState {
    DecouplerState { stage: d.stage, fired: d.fired || fires_on(d, activated) }
}

impl DecouplerState {
    /// Staging `activated`: fires if this decoupler is armed for that stage and has not
    /// fired yet, and records that it has.
    pub fn fire_on(&mut self, activated: u32) -> (fires: bool)
        ensures
            fires == fires_on(*old(self), activated),
            *final(self) == after_stage(*old(self), activated),
    {
        if self.fired || self.stage != activated {
            return false;
        }
        self.fired = true;
        true
    }
}

/// Law: an unfired decoupler fires exactly when the stage activated is its own, for every
/// stage number, the first (0) included; and firing is what marks it fired.
pub proof fn lemma_a_decoupler_fires_on_its_own_stage(d: DecouplerState, activated: u32)
    ensures
        !d.fired ==> (fires_on(d, activated) <==> d.stage == activated),
        d.fired ==> !fires_on(d, activated),
        after_stage(d, activated).stage == d.stage,
        after_stage(d, activated).fired == (d.fired || d.stage == activated),
{
}

/// A decoupler fires at most once, whatever is staged after it has fired.
pub proof fn lemma_decoupler_fires_once(d: DecouplerState, first: u32, later: u32)
    requires
        fires_on(d, first),
    ensures
        !fires_on(after_stage(d, first), later),
{
}

/// A part as the staging logic sees it: who it is, which vessel owns it, what it is
/// joined to, which part its own joint holds it to, and whether it is its vessel's root.
#[derive(Debug, Clone)]
pub struct PartNode {
    pub entity: u64,
    pub vessel: u64,
    /// Parts this part is physically connected to (undirected).
    pub connections: Vec<u64>,
    /// The part directly beneath this one — the one its own joint holds it to.
    pub attached_below: Option<u64>,
    /// Whether this part carries its vessel's control authority.
    pub is_root: bool,
}

/// The part graph staging works on: every part of every vessel, in query order.
#[derive(Debug, Clone)]
pub struct PartGraph {
    pub parts: Vec<PartNode>,
}

/// The plan for splitting a vessel at a broken joint.
#[derive(Debug, Clone)]
pub struct SplitPlan {
    /// Parts that move to the new vessel, in graph order.
    pub separated_parts: Vec<u64>,
    /// The part that must be given the root marker so each half has one, if any.
    pub new_root: Option<u64>,
}

/// `i` is the first position in `parts` holding `e` — the node a lookup of `e` finds.
pub open spec fn is_first(parts: Seq<PartNode>, e: u64, i: int) -> bool {
    &&& 0 <= i < parts.len()
    &&& parts[i].entity == e
    &&& forall|j: int| 0 <= j < i ==> #[trigger] parts[j].entity != e
}

/// `e` is the entity of some part.
pub open spec fn has_node(parts: Seq<PartNode>, e: u64) -> bool {
    exists|i: int| is_first(parts, e, i)
}

/// The position a lookup of `e` finds (meaningful only when [`has_node`] holds).
pub open spec fn node_index(parts: Seq<PartNode>, e: u64) -> int {
    choose|i: int| is_first(parts, e, i)
}

/// What `e` is joined to; nothing when `e` is not a part.
pub open spec fn neighbours_of(parts: Seq<PartNode>, e: u64) -> Seq<u64> {
    if has_node(parts, e) {
        parts[node_index(parts, e)].connections@
    } else {
        Seq::empty()
    }
}

/// The part `e`'s own joint holds it to — the joint a decoupler destroys when it fires.
pub open spec fn severed_below(parts: Seq<PartNode>, e: u64) -> Option<u64> {
    if has_node(parts, e) {
        parts[node_index(parts, e)].attached_below
    } else {
        None
    }
}

/// Whether going from `a` to `b` would cross the destroyed joint between `start` and the
/// part it was attached to.
pub open spec fn crosses_severed(start: u64, severed: Option<u64>, a: u64, b: u64) -> bool {
    (a == start && severed == Some(b)) || (b == start && severed == Some(a))
}

/// One step along a joint that still exists.
pub open spec fn joined(parts: Seq<PartNode>, start: u64, severed: Option<u64>, a: u64, b: u64) -> bool {
    neighbours_of(parts, a).contains(b) && !crosses_severed(start, severed, a, b)
}

/// `w` is a walk from `start` through joints that still hold.
pub open spec fn is_walk(parts: Seq<PartNode>, start: u64, severed: Option<u64>, w: Seq<u64>) -> bool {
    &&& w.len() >= 1
    &&& w[0] == start
    &&& forall|k: int| 0 <= k < w.len() - 1 ==> joined(parts, start, severed, #[trigger] w[k], w[k + 1])
}

/// `e` is still held to `start` once `start`'s own joint is gone.
pub open spec fn still_attached(parts: Seq<PartNode>, start: u64, e: u64) -> bool {
    exists|w: Seq<u64>| #[trigger] is_walk(parts, start, severed_below(parts, start), w) && w.last() == e
}

/// The first `n` parts' contribution to what separates from `vessel` at `start`.
pub open spec fn separated_prefix(parts: Seq<PartNode>, start: u64, vessel: u64, n: int) -> Seq<u64>
    decreases n,
{
    if n <= 0 {
        Seq::empty()
    } else {
        let rest = separated_prefix(parts, start, vessel, n - 1);
        let p = parts[n - 1];
        if p.vessel == vessel && !still_attached(parts, start, p.entity) {
            rest.push(p.entity)
        } else {
            rest
        }
    }
}

/// Every part of `vessel` that is no longer held to `start` once `start`'s own joint is
/// destroyed, in graph order.
pub open spec fn separated_parts(parts: Seq<PartNode>, start: u64, vessel: u64) -> Seq<u64> {
    separated_prefix(parts, start, vessel, parts.len() as int)
}

/// `e` is marked as a root part.
pub open spec fn is_root_entity(parts: Seq<PartNode>, e: u64) -> bool {
    exists|i: int| 0 <= i < parts.len() && parts[i].entity == e && parts[i].is_root
}

/// The first part among the first `n` still owned by `vessel` and not in `moved`.
pub open spec fn first_remaining(parts: Seq<PartNode>, vessel: u64, moved: Seq<u64>, n: int) -> Option<u64>
    decreases n,
{
    if n <= 0 {
        None
    } else {
        let earlier = first_remaining(parts, vessel, moved, n - 1);
        if earlier is Some {
            earlier
        } else if parts[n - 1].vessel == vessel && !moved.contains(parts[n - 1].entity) {
            Some(parts[n - 1].entity)
        } else {
            None
        }
    }
}

/// Which part gets the root marker after `moved` leaves `vessel`: if the root went with
/// the separated half, the first part left behind; otherwise the first part that moved.
pub open spec fn root_after_split(parts: Seq<PartNode>, vessel: u64, moved: Seq<u64>) -> Option<u64> {
    if exists|k: int| 0 <= k < moved.len() && is_root_entity(parts, #[trigger] moved[k]) {
        first_remaining(parts, vessel, moved, parts.len() as int)
    } else {
        Some(moved[0])
    }
}

/// Number of unset flags — the measure the graph walk counts down.
pub open spec fn count_unset(s: Seq<bool>) -> nat
    decreases s.len(),
{
    if s.len() == 0 {
        0
    } else {
        count_unset(s.drop_last()) + if s.last() {
            0nat
        } else {
            1nat
        }
    }
}

proof fn lemma_count_unset_set(s: Seq<bool>, i: int)
    requires
        0 <= i < s.len(),
        !s[i],
    ensures
        count_unset(s.update(i, true)) + 1 == count_unset(s),
    decreases s.len(),
{
    let t = s.update(i, true);
    if i == s.len() - 1 {
        assert(t.drop_last() =~= s.drop_last());
    } else {
        assert(t.drop_last() =~= s.drop_last().update(i, true));
        lemma_count_unset_set(s.drop_last(), i);
    }
}

/// The first lookup of an entity is unique.
pub proof fn lemma_first_unique(parts: Seq<PartNode>, e: u64, i: int)
    requires
        is_first(parts, e, i),
    ensures
        has_node(parts, e),
        node_index(parts, e) == i,
{
    let j = node_index(parts, e);
    assert(is_first(parts, e, j));
    if j < i {
        assert(parts[j].entity != e);
    } else if i < j {
        assert(parts[i].entity != e);
    }
}

/// An entity held by some part has a first node.
proof fn lemma_present_has_node(parts: Seq<PartNode>, e: u64, i: int)
    requires
        0 <= i < parts.len(),
        parts[i].entity == e,
    ensures
        has_node(parts, e),
    decreases i,
{
    if exists|j: int| 0 <= j < i && #[trigger] parts[j].entity == e {
        let j = choose|j: int| 0 <= j < i && #[trigger] parts[j].entity == e;
        lemma_present_has_node(parts, e, j);
    } else {
        assert(is_first(parts, e, i));
    }
}

/// Finds the node a lookup of `e` would find.
fn find_part(parts: &Vec<PartNode>, e: u64) -> (found: Option<usize>)
    ensures
        found matches Some(i) ==> is_first(parts@, e, i as int),
        found is None ==> !has_node(parts@, e),
{
    let mut i: usize = 0;
    while i < parts.len()
        invariant
            i <= parts@.len(),
            forall|j: int| 0 <= j < i ==> #[trigger] parts@[j].entity != e,
        decreases parts.len() - i,
    {
        if parts[i].entity == e {
            return Some(i);
        }
        i += 1;
    }
    assert forall|j: int| !is_first(parts@, e, j) by {
        if 0 <= j < parts@.len() {
            assert(parts@[j].entity != e);
        }
    }
    None
}

/// Every marked node has been expanded unless it is still waiting in the frontier.
pub open spec fn closed_except(
    parts: Seq<PartNode>,
    start: u64,
    severed: Option<u64>,
    marked: Seq<bool>,
    frontier: Seq<usize>,
) -> bool {
    forall|i: int, b: u64, j: int|
        0 <= i < parts.len() && #[trigger] marked[i] && !frontier.contains(i as usize)
            && parts[i].connections@.contains(b) && !crosses_severed(start, severed, parts[i].entity, b)
            && #[trigger] is_first(parts, b, j) ==> marked[j]
}

/// Every marked node is the first node of its entity and is still held to `start`.
pub open spec fn marks_sound(parts: Seq<PartNode>, start: u64, marked: Seq<bool>) -> bool {
    forall|i: int|
        0 <= i < parts.len() && #[trigger] marked[i] ==> is_first(parts, parts[i].entity, i)
            && still_attached(parts, start, parts[i].entity)
}

/// A walk through surviving joints only ever meets marked nodes, once nothing is left to
/// expand.
proof fn lemma_walk_stays_marked(
    parts: Seq<PartNode>,
    start: u64,
    marked: Seq<bool>,
    w: Seq<u64>,
    k: int,
)
    requires
        marked.len() == parts.len(),
        closed_except(parts, start, severed_below(parts, start), marked, Seq::empty()),
        forall|i: int| is_first(parts, start, i) ==> marked[i],
        is_walk(parts, start, severed_below(parts, start), w),
        0 <= k < w.len(),
    ensures
        forall|j: int| is_first(parts, w[k], j) ==> marked[j],
    decreases k,
{
    let severed = severed_below(parts, start);
    if k > 0 {
        lemma_walk_stays_marked(parts, start, marked, w, k - 1);
        assert(joined(parts, start, severed, w[k - 1], w[k]));
        assert(has_node(parts, w[k - 1]));
        let i = node_index(parts, w[k - 1]);
        assert(is_first(parts, w[k - 1], i));
        assert(marked[i]);
        assert forall|j: int| is_first(parts, w[k], j) implies marked[j] by {
            assert(!Seq::<usize>::empty().contains(i as usize));
            assert(parts[i].connections@.contains(w[k]));
        }
    }
}

/// A part that is its own start is trivially still attached.
proof fn lemma_start_attached(parts: Seq<PartNode>, start: u64)
    ensures
        still_attached(parts, start, start),
{
    let w = seq![start];
    assert(is_walk(parts, start, severed_below(parts, start), w));
}

/// Extending a walk by one surviving joint.
proof fn lemma_walk_extends(parts: Seq<PartNode>, start: u64, a: u64, b: u64)
    requires
        still_attached(parts, start, a),
        joined(parts, start, severed_below(parts, start), a, b),
    ensures
        still_attached(parts, start, b),
{
    let severed = severed_below(parts, start);
    let w = choose|w: Seq<u64>| #[trigger] is_walk(parts, start, severed, w) && w.last() == a;
    let w2 = w.push(b);
    assert forall|k: int| 0 <= k < w2.len() - 1 implies joined(parts, start, severed, #[trigger] w2[k], w2[k + 1]) by {
        if k < w.len() - 1 {
            assert(w2[k] == w[k] && w2[k + 1] == w[k + 1]);
        } else {
            assert(w2[k] == a && w2[k + 1] == b);
        }
    }
    assert(is_walk(parts, start, severed, w2));
}

/// Finds every part of `vessel` that is no longer reachable from `start` once `start`'s
/// joint to the part below it is gone.
///
/// A walk of the connection graph from `start`, refusing to cross the one edge that was
/// just destroyed. Whatever it can still reach stays; everything else in the vessel is what
/// separated. Walking the graph rather than assuming "everything below in the list" keeps
/// this correct for branching vessels.
pub fn parts_below(graph: &PartGraph, start: u64, vessel: u64) -> (separated: Vec<u64>)
    ensures
        separated@ == separated_parts(graph.parts@, start, vessel),
{
    let parts = &graph.parts;
    let n = parts.len();
    let ghost ps = parts@;
    let start_index = find_part(parts, start);
    let severed: Option<u64> = match start_index {
        Some(i) => parts[i].attached_below,
        None => None,
    };
    proof {
        if let Some(i) = start_index {
            lemma_first_unique(ps, start, i as int);
        }
        assert(severed == severed_below(ps, start));
        lemma_start_attached(ps, start);
    }

    let mut marked: Vec<bool> = Vec::new();
    let mut m: usize = 0;
    while m < n
        invariant
            m <= n,
            n == ps.len(),
            marked@.len() == m,
            forall|i: int| 0 <= i < m ==> !#[trigger] marked@[i],
        decreases n - m,
    {
        marked.push(false);
        m += 1;
    }

    let mut frontier: Vec<usize> = Vec::new();
    if let Some(i) = start_index {
        marked.set(i, true);
        frontier.push(i);
    }
    proof {
        assert forall|i: int| is_first(ps, start, i) implies marked@[i] by {
            if let Some(s) = start_index {
                lemma_first_unique(ps, start, s as int);
                lemma_first_unique(ps, start, i);
            } else {
                assert(has_node(ps, start));
            }
        }
        assert forall|i: int| 0 <= i < ps.len() && #[trigger] marked@[i] implies is_first(ps, ps[i].entity, i)
            && still_attached(ps, start, ps[i].entity) by {
            assert(start_index == Some(i as usize));
        }
        assert(closed_except(ps, start, severed, marked@, frontier@)) by {
            assert forall|i: int, b: u64, j: int|
                0 <= i < ps.len() && #[trigger] marked@[i] && !frontier@.contains(i as usize)
                    && ps[i].connections@.contains(b) && !crosses_severed(start, severed, ps[i].entity, b)
                    && #[trigger] is_first(ps, b, j) implies marked@[j] by {
                assert(start_index == Some(i as usize));
                assert(frontier@[0] == i as usize);
            }
        }
    }

    while frontier.len() > 0
        invariant
            n == ps.len(),
            ps == parts@,
            severed == severed_below(ps, start),
            marked@.len() == n,
            forall|k: int| 0 <= k < frontier@.len() ==> (#[trigger] frontier@[k]) < n && marked@[frontier@[k] as int],
            forall|i: int| is_first(ps, start, i) ==> marked@[i],
            marks_sound(ps, start, marked@),
            closed_except(ps, start, severed, marked@, frontier@),
        decreases count_unset(marked@), frontier@.len(),
    {
        let ghost marked_before = marked@;
        let ghost frontier_before = frontier@;
        let current = frontier.pop().unwrap();
        proof {
            assert(frontier_before =~= frontier@.push(current));
            assert(frontier_before[frontier_before.len() - 1] == current);
        }
        let cur_entity = parts[current].entity;
        let neighbours = &parts[current].connections;
        let ghost frontier_popped = frontier@;
        let mut k: usize = 0;
        while k < neighbours.len()
            invariant
                n == ps.len(),
                ps == parts@,
                current < n,
                cur_entity == ps[current as int].entity,
                neighbours@ == ps[current as int].connections@,
                k <= neighbours@.len(),
                severed == severed_below(ps, start),
                marked@.len() == n,
                marked@[current as int],
                forall|i: int| 0 <= i < n && marked_before[i] ==> #[trigger] marked@[i],
                forall|x: int| 0 <= x < frontier@.len() ==> (#[trigger] frontier@[x]) < n && marked@[frontier@[x] as int],
                forall|x: int| 0 <= x < frontier_popped.len() ==> frontier@[x] == #[trigger] frontier_popped[x],
                frontier_popped.len() <= frontier@.len(),
                forall|i: int| 0 <= i < n && #[trigger] marked@[i] && !marked_before[i] ==> frontier@.contains(i as usize),
                forall|i: int| is_first(ps, start, i) ==> marked@[i],
                marks_sound(ps, start, marked@),
                closed_except(ps, start, severed, marked_before, frontier_before),
                count_unset(marked@) + (frontier@.len() - frontier_popped.len()) == count_unset(marked_before),
                forall|x: int, j: int|
                    0 <= x < k && !crosses_severed(start, severed, cur_entity, neighbours@[x])
                        && #[trigger] is_first(ps, neighbours@[x], j) ==> marked@[j],
            decreases neighbours.len() - k,
        {
            let b = neighbours[k];
            let crosses = (cur_entity == start && severed == Some(b)) || (b == start && severed == Some(cur_entity));
            if !crosses {
                if let Some(j) = find_part(parts, b) {
                    if !marked[j] {
                        proof {
                            lemma_count_unset_set(marked@, j as int);
                            assert(ps[current as int].connections@.contains(b)) by {
                                assert(neighbours@[k as int] == b);
                            }
                            lemma_first_unique(ps, cur_entity, current as int);
                            assert(joined(ps, start, severed, cur_entity, b));
                            lemma_walk_extends(ps, start, cur_entity, b);
                        }
                        let ghost mk = marked@;
                        let ghost fr = frontier@;
                        marked.set(j, true);
                        frontier.push(j);
                        proof {
                            assert forall|i: int| 0 <= i < ps.len() && #[trigger] marked@[i] implies is_first(ps, ps[i].entity, i)
                                && still_attached(ps, start, ps[i].entity) by {
                                if i != j {
                                    assert(mk[i]);
                                }
                            }
                            assert forall|i: int| 0 <= i < n && #[trigger] marked@[i] && !marked_before[i] implies frontier@.contains(i as usize) by {
                                if i == j {
                                    assert(frontier@[fr.len() as int] == j);
                                } else {
                                    assert(mk[i]);
                                    assert(fr.contains(i as usize));
                                    let y = choose|y: int| 0 <= y < fr.len() && fr[y] == i as usize;
                                    assert(frontier@[y] == i as usize);
                                }
                            }
                        }
                    }
                }
            }
            proof {
                assert forall|x: int, jj: int|
                    0 <= x < k + 1 && !crosses_severed(start, severed, cur_entity, neighbours@[x])
                        && #[trigger] is_first(ps, neighbours@[x], jj) implies marked@[jj] by {
                    if x == k {
                        lemma_first_unique(ps, neighbours@[x], jj);
                    }
                }
            }
            k += 1;
        }
        proof {
            assert forall|i: int, b: u64, j: int|
                0 <= i < ps.len() && #[trigger] marked@[i] && !frontier@.contains(i as usize)
                    && ps[i].connections@.contains(b) && !crosses_severed(start, severed, ps[i].entity, b)
                    && #[trigger] is_first(ps, b, j) implies marked@[j] by {
                if i == current as int {
                    let x = choose|x: int| 0 <= x < neighbours@.len() && neighbours@[x] == b;
                    assert(is_first(ps, neighbours@[x], j));
                } else if marked_before[i] {
                    if frontier_before.contains(i as usize) {
                        let y = choose|y: int| 0 <= y < frontier_before.len() && frontier_before[y] == i as usize;
                        if y < frontier_popped.len() {
                            assert(frontier@[y] == i as usize);
                            assert(frontier@.contains(i as usize));
                        } else {
                            assert(y == frontier_before.len() - 1);
                        }
                    }
                    assert(marked_before[j]);
                } else {
                    assert(frontier@.contains(i as usize));
                }
            }
        }
    }
    proof {
        assert(frontier@ =~= Seq::<usize>::empty());
    }

    let mut separated: Vec<u64> = Vec::new();
    let mut i: usize = 0;
    while i < n
        invariant
            n == ps.len(),
            ps == parts@,
            i <= n,
            marked@.len() == n,
            forall|x: int| is_first(ps, start, x) ==> marked@[x],
            marks_sound(ps, start, marked@),
            closed_except(ps, start, severed, marked@, Seq::empty()),
            severed == severed_below(ps, start),
            separated@ == separated_prefix(ps, start, vessel, i as int),
        decreases n - i,
    {
        let e = parts[i].entity;
        let mut attached = e == start;
        if !attached {
            if let Some(j) = find_part(parts, e) {
                attached = marked[j];
            }
        }
        proof {
            lemma_present_has_node(ps, e, i as int);
            if e == start {
                lemma_start_attached(ps, start);
            } else if has_node(ps, e) {
                let j = node_index(ps, e);
                lemma_first_unique(ps, e, j);
                if still_attached(ps, start, e) {
                    let w = choose|w: Seq<u64>| #[trigger] is_walk(ps, start, severed, w) && w.last() == e;
                    lemma_walk_stays_marked(ps, start, marked@, w, w.len() - 1);
                }
            } else {
                lemma_present_has_node(ps, e, i as int);
            }
            assert(attached == still_attached(ps, start, e));
        }
        if parts[i].vessel == vessel && !attached {
            separated.push(e);
        }
        i += 1;
    }
    separated
}

/// Whether `e` carries the root marker anywhere in the graph.
fn is_root_part(parts: &Vec<PartNode>, e: u64) -> (root: bool)
    ensures
        root == is_root_entity(parts@, e),
{
    let mut i: usize = 0;
    while i < parts.len()
        invariant
            i <= parts@.len(),
            forall|j: int| 0 <= j < i ==> !(#[trigger] parts@[j].entity == e && parts@[j].is_root),
        decreases parts.len() - i,
    {
        if parts[i].entity == e && parts[i].is_root {
            return true;
        }
        i += 1;
    }
    false
}

/// Whether `moved` holds `e`.
fn holds(moved: &Vec<u64>, e: u64) -> (found: bool)
    ensures
        found == moved@.contains(e),
{
    let mut k: usize = 0;
    while k < moved.len()
        invariant
            k <= moved@.len(),
            forall|j: int| 0 <= j < k ==> #[trigger] moved@[j] != e,
        decreases moved.len() - k,
    {
        if moved[k] == e {
            return true;
        }
        k += 1;
    }
    false
}

/// Splits `vessel` in two at `part`, whose joint has already been removed.
///
/// Everything still reachable from `part` stays with the original vessel; everything else
/// moves to a new vessel. Both halves need exactly one root part, and which half kept the
/// old one depends on where the break was: if the root went with the separated half, the
/// first part left behind becomes the original's new root; otherwise the first part that
/// moved becomes the new vessel's root. `None` means the joint was not holding anything
/// and nothing was split.
///
/// Shared by staging and by structural failure, which are the same operation reached two
/// ways — a decoupler firing is a joint being destroyed on purpose.
pub fn split_vessel(graph: &PartGraph, part: u64, vessel: u64) -> (plan: Option<SplitPlan>)
    ensures
        (plan is None) == (separated_parts(graph.parts@, part, vessel).len() == 0),
        plan matches Some(p) ==> p.separated_parts@ == separated_parts(graph.parts@, part, vessel)
            && p.new_root == root_after_split(graph.parts@, vessel, p.separated_parts@),
{
    let separated = parts_below(graph, part, vessel);
    if separated.len() == 0 {
        return None;
    }
    let parts = &graph.parts;
    let ghost ps = parts@;

    let mut root_moved = false;
    let mut k: usize = 0;
    while k < separated.len()
        invariant
            ps == parts@,
            k <= separated@.len(),
            root_moved == exists|x: int| 0 <= x < k && is_root_entity(ps, #[trigger] separated@[x]),
        decreases separated.len() - k,
    {
        if is_root_part(parts, separated[k]) {
            root_moved = true;
        }
        proof {
            if root_moved && !is_root_entity(ps, separated@[k as int]) {
                let x = choose|x: int| 0 <= x < k && is_root_entity(ps, #[trigger] separated@[x]);
                assert(0 <= x < k + 1 && is_root_entity(ps, separated@[x]));
            }
        }
        k += 1;
    }

    let new_root = if root_moved {
        let mut found: Option<u64> = None;
        let mut i: usize = 0;
        while i < parts.len()
            invariant
                ps == parts@,
                i <= ps.len(),
                found == first_remaining(ps, vessel, separated@, i as int),
            decreases parts.len() - i,
        {
            if found.is_none() && parts[i].vessel == vessel && !holds(&separated, parts[i].entity) {
                found = Some(parts[i].entity);
            }
            i += 1;
        }
        found
    } else {
        Some(separated[0])
    };
    Some(SplitPlan { separated_parts: separated, new_root })
}

/// Exactly one position below `n` satisfies `holds`.
pub open spec fn exactly_one(n: int, holds: spec_fn(int) -> bool) -> bool {
    exists|i: int| 0 <= i < n && #[trigger] holds(i) && forall|j: int| 0 <= j < n && #[trigger] holds(j) ==> j == i
}

/// Whether the part at `i` carries the root marker once `new_root` has been given it.
pub open spec fn root_after(parts: Seq<PartNode>, new_root: Option<u64>, i: int) -> bool {
    parts[i].is_root || new_root == Some(parts[i].entity)
}

/// No two parts share an entity.
pub open spec fn entities_unique(parts: Seq<PartNode>) -> bool {
    forall|i: int, j: int| 0 <= i < parts.len() && 0 <= j < parts.len() && i != j
        ==> #[trigger] parts[i].entity != #[trigger] parts[j].entity
}

/// What separates: exactly the parts of `vessel` among the first `n` that are no longer
/// held to `start`.
pub proof fn lemma_separated_members(parts: Seq<PartNode>, start: u64, vessel: u64, n: int)
    requires
        0 <= n <= parts.len(),
    ensures
        forall|e: u64| #[trigger] separated_prefix(parts, start, vessel, n).contains(e) <==> exists|i: int|
            0 <= i < n && #[trigger] parts[i].entity == e && parts[i].vessel == vessel && !still_attached(parts, start, e),
    decreases n,
{
    if n > 0 {
        lemma_separated_members(parts, start, vessel, n - 1);
        let rest = separated_prefix(parts, start, vessel, n - 1);
        let p = parts[n - 1];
        assert forall|e: u64| #[trigger] separated_prefix(parts, start, vessel, n).contains(e) <==> exists|i: int|
            0 <= i < n && #[trigger] parts[i].entity == e && parts[i].vessel == vessel && !still_attached(parts, start, e) by {
            if p.vessel == vessel && !still_attached(parts, start, p.entity) {
                let whole = rest.push(p.entity);
                if whole.contains(e) {
                    let k = choose|k: int| 0 <= k < whole.len() && whole[k] == e;
                    if k < rest.len() {
                        assert(rest.contains(e));
                    } else {
                        assert(parts[n - 1].entity == e);
                    }
                }
                if exists|i: int| 0 <= i < n && #[trigger] parts[i].entity == e && parts[i].vessel == vessel
                    && !still_attached(parts, start, e) {
                    let i = choose|i: int| 0 <= i < n && #[trigger] parts[i].entity == e && parts[i].vessel == vessel
                        && !still_attached(parts, start, e);
                    if i < n - 1 {
                        assert(rest.contains(e));
                        let k = choose|k: int| 0 <= k < rest.len() && rest[k] == e;
                        assert(whole[k] == e);
                    } else {
                        assert(whole[rest.len() as int] == e);
                    }
                }
            } else {
                if exists|i: int| 0 <= i < n && #[trigger] parts[i].entity == e && parts[i].vessel == vessel
                    && !still_attached(parts, start, e) {
                    let i = choose|i: int| 0 <= i < n && #[trigger] parts[i].entity == e && parts[i].vessel == vessel
                        && !still_attached(parts, start, e);
                    if i == n - 1 {
                        assert(false);
                    }
                }
            }
        }
    }
}

proof fn lemma_first_remaining(parts: Seq<PartNode>, vessel: u64, moved: Seq<u64>, n: int)
    requires
        0 <= n <= parts.len(),
    ensures
        first_remaining(parts, vessel, moved, n) matches Some(e) ==> exists|i: int|
            0 <= i < n && #[trigger] parts[i].entity == e && parts[i].vessel == vessel && !moved.contains(e),
        (exists|i: int| 0 <= i < n && #[trigger] parts[i].vessel == vessel && !moved.contains(parts[i].entity))
            ==> first_remaining(parts, vessel, moved, n) is Some,
    decreases n,
{
    if n > 0 {
        lemma_first_remaining(parts, vessel, moved, n - 1);
        if exists|i: int| 0 <= i < n && #[trigger] parts[i].vessel == vessel && !moved.contains(parts[i].entity) {
            let i = choose|i: int| 0 <= i < n && #[trigger] parts[i].vessel == vessel && !moved.contains(parts[i].entity);
            if i < n - 1 {
                assert(first_remaining(parts, vessel, moved, n - 1) is Some);
            }
        }
    }
}

/// Law: splitting a vessel leaves each half with exactly one root part.
///
/// Provided the vessel had exactly one root and the part the break happened at belongs to
/// it, once the plan's new root is marked, the parts left behind have exactly one root and
/// the parts that moved have exactly one root — whichever side the old root ended up on.
pub proof fn lemma_each_half_keeps_one_root(parts: Seq<PartNode>, start: u64, vessel: u64)
    requires
        entities_unique(parts),
        exactly_one(parts.len() as int, |i: int| parts[i].vessel == vessel && parts[i].is_root),
        exists|i: int| 0 <= i < parts.len() && parts[i].entity == start && parts[i].vessel == vessel,
        separated_parts(parts, start, vessel).len() > 0,
    ensures
        ({
            let moved = separated_parts(parts, start, vessel);
            let r = root_after_split(parts, vessel, moved);
            &&& exactly_one(
                parts.len() as int,
                |i: int| parts[i].vessel == vessel && !moved.contains(parts[i].entity) && root_after(parts, r, i),
            )
            &&& exactly_one(parts.len() as int, |i: int| moved.contains(parts[i].entity) && root_after(parts, r, i))
        }),
{
    let n = parts.len() as int;
    let moved = separated_parts(parts, start, vessel);
    let r = root_after_split(parts, vessel, moved);
    lemma_separated_members(parts, start, vessel, n);
    lemma_first_remaining(parts, vessel, moved, n);
    lemma_start_attached(parts, start);
    let is_old_root = |i: int| parts[i].vessel == vessel && parts[i].is_root;
    let r0 = choose|i: int| 0 <= i < n && #[trigger] is_old_root(i) && forall|j: int| 0 <= j < n && #[trigger] is_old_root(j) ==> j == i;
    let e0 = parts[r0].entity;
    let s = choose|i: int| 0 <= i < n && parts[i].entity == start && parts[i].vessel == vessel;

    // A moved entity belongs to exactly one part, and that part is the vessel's.
    assert forall|j: int| 0 <= j < n && moved.contains(#[trigger] parts[j].entity) implies parts[j].vessel == vessel
        && !still_attached(parts, start, parts[j].entity) by {
        let e = parts[j].entity;
        let i = choose|i: int| 0 <= i < n && #[trigger] parts[i].entity == e && parts[i].vessel == vessel
            && !still_attached(parts, start, e);
        if i != j {
            assert(parts[i].entity != parts[j].entity);
        }
    }
    assert(!moved.contains(start));
    assert(parts[s].vessel == vessel && !moved.contains(parts[s].entity));

    let left = |i: int| parts[i].vessel == vessel && !moved.contains(parts[i].entity) && root_after(parts, r, i);
    let gone = |i: int| moved.contains(parts[i].entity) && root_after(parts, r, i);

    if moved.contains(e0) {
        let k = choose|k: int| 0 <= k < moved.len() && moved[k] == e0;
        assert(is_root_entity(parts, moved[k]));
        assert(r == first_remaining(parts, vessel, moved, n));
        let e1 = r->0;
        let i1 = choose|i: int| 0 <= i < n && #[trigger] parts[i].entity == e1 && parts[i].vessel == vessel && !moved.contains(e1);
        assert(left(i1));
        assert forall|j: int| 0 <= j < n && #[trigger] left(j) implies j == i1 by {
            if parts[j].is_root {
                assert(is_old_root(j));
            } else if j != i1 {
                assert(parts[j].entity != parts[i1].entity);
            }
        }
        assert(gone(r0));
        assert forall|j: int| 0 <= j < n && #[trigger] gone(j) implies j == r0 by {
            if parts[j].is_root {
                assert(is_old_root(j));
            }
        }
    } else {
        assert forall|k: int| 0 <= k < moved.len() implies !is_root_entity(parts, #[trigger] moved[k]) by {
            if is_root_entity(parts, moved[k]) {
                let i = choose|i: int| 0 <= i < n && parts[i].entity == moved[k] && parts[i].is_root;
                assert(moved.contains(parts[i].entity));
                assert(is_old_root(i));
            }
        }
        assert(r == Some(moved[0]));
        assert(moved.contains(moved[0]));
        let i1 = choose|i: int| 0 <= i < n && #[trigger] parts[i].entity == moved[0] && parts[i].vessel == vessel
            && !still_attached(parts, start, moved[0]);
        assert(left(r0));
        assert forall|j: int| 0 <= j < n && #[trigger] left(j) implies j == r0 by {
            if parts[j].is_root {
                assert(is_old_root(j));
            }
        }
        assert(moved.contains(parts[i1].entity));
        assert(gone(i1));
        assert forall|j: int| 0 <= j < n && #[trigger] gone(j) implies j == i1 by {
            if parts[j].is_root {
                assert(is_old_root(j));
            } else if j != i1 {
                assert(parts[j].entity != parts[i1].entity);
            }
        }
    }
}

} // verus!

//! How a stack of parts is wired together when a vessel is assembled.
//!
//! Parts are stacked bottom to top, each one's bottom node on the previous one's top node.
//! The wiring is what staging later walks: every part is connected to its neighbours in
//! the stack, every part but the bottom one is held by its own joint to the part directly
//! beneath it, and the topmost part is the root. A decoupler starts a new propellant
//! network, because the stack will separate there and fuel must not flow across it.

use vstd::prelude::*;

use crate::text::same_text;
use crate::vessel::staging::{
    PartNode, entities_unique, is_first, is_walk, joined, lemma_first_unique, lemma_separated_members,
    neighbours_of, separated_parts, severed_below, still_attached,
};

verus! {

/// How one part of an assembled stack is wired.
#[derive(Debug, Clone)]
pub struct StackSlot {
    pub entity: u64,
    /// The propellant network the part belongs to.
    pub fuel_group: u32,
    /// The part directly beneath it, which its own joint holds it to.
    pub attached_below: Option<u64>,
    /// Its neighbours in the stack: the part below, then the part above.
    pub connections: Vec<u64>,
}

/// How many of the first `n` flags are set.
pub open spec fn count_set(flags: Seq<bool>, n: int) -> int
    decreases n,
{
    if n <= 0 {
        0
    } else {
        count_set(flags, n - 1) + if flags[n - 1] {
            1int
        } else {
            0int
        }
    }
}

/// The part directly beneath position `i`.
pub open spec fn stack_below(parts: Seq<u64>, i: int) -> Option<u64> {
    if i > 0 {
        Some(parts[i - 1])
    } else {
        None
    }
}

/// The neighbours of position `i`: the part below, then the part above.
pub open spec fn stack_neighbours(parts: Seq<u64>, i: int) -> Seq<u64> {
    (if i > 0 {
        seq![parts[i - 1]]
    } else {
        Seq::empty()
    }) + (if i + 1 < parts.len() {
        seq![parts[i + 1]]
    } else {
        Seq::empty()
    })
}

proof fn lemma_count_set_bounded(flags: Seq<bool>, n: int)
    requires
        0 <= n <= flags.len(),
    ensures
        0 <= count_set(flags, n) <= n,
    decreases n,
{
    if n > 0 {
        lemma_count_set_bounded(flags, n - 1);
    }
}

/// Wires up a stack of spawned parts, bottom to top.
///
/// `starts_group[i]` says whether part `i` is a decoupler: a decoupler and everything above
/// it up to the next decoupler share a fresh fuel group, numbered upward from 0 at the
/// bottom. The stack's root is chosen by [`stack_root`].
pub fn plan_stack(parts: &Vec<u64>, starts_group: &Vec<bool>) -> (slots: Vec<StackSlot>)
    requires
        parts.len() == starts_group.len(),
        parts.len() < u32::MAX,
    ensures
        slots.len() == parts.len(),
        forall|i: int| 0 <= i < parts.len() ==> {
            &&& (#[trigger] slots@[i]).entity == parts@[i]
            &&& slots@[i].fuel_group == count_set(starts_group@, i + 1)
            &&& slots@[i].attached_below == stack_below(parts@, i)
            &&& slots@[i].connections@ == stack_neighbours(parts@, i)
        },
{
    let n = parts.len();
    let mut slots: Vec<StackSlot> = Vec::new();
    let mut group: u32 = 0;
    let mut i: usize = 0;
    while i < n
        invariant
            n == parts.len(),
            n == starts_group.len(),
            n < u32::MAX,
            i <= n,
            slots.len() == i,
            group == count_set(starts_group@, i as int),
            forall|x: int| 0 <= x < i ==> {
                &&& (#[trigger] slots@[x]).entity == parts@[x]
                &&& slots@[x].fuel_group == count_set(starts_group@, x + 1)
                &&& slots@[x].attached_below == stack_below(parts@, x)
                &&& slots@[x].connections@ == stack_neighbours(parts@, x)
            },
        decreases n - i,
    {
        proof {
            lemma_count_set_bounded(starts_group@, i as int);
        }
        if starts_group[i] {
            group = group + 1;
        }
        let mut connections: Vec<u64> = Vec::new();
        let attached_below = if i > 0 {
            connections.push(parts[i - 1]);
            Some(parts[i - 1])
        } else {
            None
        };
        if i + 1 < n {
            connections.push(parts[i + 1]);
        }
        proof {
            assert(connections@ =~= stack_neighbours(parts@, i as int));
        }
        slots.push(StackSlot { entity: parts[i], fuel_group: group, attached_below, connections });
        i += 1;
    }
    slots
}

/// The stack's root part: the topmost one. It is the furthest from the engines, so torque
/// applied there rotates the stack the way a control pod at the nose would.
pub fn stack_root(parts: &Vec<u64>) -> (root: Option<u64>)
    ensures
        root == if parts@.len() > 0 {
            Some(parts@.last())
        } else {
            None
        },
{
    if parts.len() == 0 {
        None
    } else {
        Some(parts[parts.len() - 1])
    }
}

/// How a part without a modelled mesh is coloured, so the stack can be told apart at a
/// glance: engines dark, tanks pale, everything else grey.
#[derive(Debug, Clone, Copy, PartialEq, Eq, Structural)]
pub enum PartTint {
    Engine,
    FuelTank,
    Structure,
}

/// Whether `categories` lists `name`.
pub open spec fn lists(categories: Seq<String>, name: Seq<char>) -> bool {
    exists|i: int| 0 <= i < categories.len() && #[trigger] categories[i]@ == name
}

/// The tint a part with these categories gets.
pub open spec fn tint_for(categories: Seq<String>) -> PartTint {
    if lists(categories, "engine"@) {
        PartTint::Engine
    } else if lists(categories, "fuel tank"@) {
        PartTint::FuelTank
    } else {
        PartTint::Structure
    }
}

/// Law: each decoupler starts a fresh propellant network, and nothing else does.
///
/// Numbering fuel groups upward from the bottom of a stack whose decouplers are flagged in
/// `flags`: the bottom part is in group 1 if it is a decoupler and group 0 otherwise, and
/// each part above is in the group of the part below it, plus one exactly when it is a
/// decoupler. So two parts with a decoupler between them (or the upper one being it) are in
/// different groups, and parts with none between them share one.
pub proof fn lemma_each_decoupler_starts_a_fuel_group(flags: Seq<bool>, i: int, j: int)
    requires
        0 <= i < j < flags.len(),
    ensures
        count_set(flags, 1) == (if flags[0] { 1int } else { 0int }),
        count_set(flags, i + 2) == count_set(flags, i + 1) + (if flags[i + 1] { 1int } else { 0int }),
        (exists|k: int| i < k <= j && #[trigger] flags[k]) ==> count_set(flags, j + 1) > count_set(flags, i + 1),
        (forall|k: int| i < k <= j ==> !#[trigger] flags[k]) ==> count_set(flags, j + 1) == count_set(flags, i + 1),
    decreases j - i,
{
    assert(count_set(flags, 0) == 0);
    if j > i + 1 {
        lemma_each_decoupler_starts_a_fuel_group(flags, i, j - 1);
        lemma_each_decoupler_starts_a_fuel_group(flags, j - 1, j);
        if exists|k: int| i < k <= j && #[trigger] flags[k] {
            let k = choose|k: int| i < k <= j && #[trigger] flags[k];
            if k < j {
                assert(exists|k2: int| i < k2 <= j - 1 && #[trigger] flags[k2]);
            }
        }
    }
}

/// Law: the tint goes by which categories a part lists, not where they are listed. Listing
/// "engine" anywhere makes it an engine; otherwise listing "fuel tank" anywhere makes it a
/// tank; a part listing neither is structure.
pub proof fn lemma_tint_follows_listed_categories(categories: Seq<String>)
    ensures
        (exists|i: int| 0 <= i < categories.len() && #[trigger] categories[i]@ == "engine"@) ==> tint_for(categories)
            == PartTint::Engine,
        (forall|i: int| 0 <= i < categories.len() ==> #[trigger] categories[i]@ != "engine"@) && (exists|i: int|
            0 <= i < categories.len() && #[trigger] categories[i]@ == "fuel tank"@) ==> tint_for(categories)
            == PartTint::FuelTank,
        (forall|i: int| 0 <= i < categories.len() ==> #[trigger] categories[i]@ != "engine"@ && categories[i]@
            != "fuel tank"@) ==> tint_for(categories) == PartTint::Structure,
{
    if forall|i: int| 0 <= i < categories.len() ==> #[trigger] categories[i]@ != "engine"@ && categories[i]@ != "fuel tank"@ {
        assert(!lists(categories, "engine"@));
        assert(!lists(categories, "fuel tank"@));
    }
}

fn lists_category(categories: &Vec<String>, name: &str) -> (found: bool)
    ensures
        found == lists(categories@, name@),
{
    let mut i: usize = 0;
    while i < categories.len()
        invariant
            i <= categories@.len(),
            forall|j: int| 0 <= j < i ==> #[trigger] categories@[j]@ != name@,
        decreases categories.len() - i,
    {
        if same_text(categories[i].as_str(), name) {
            return true;
        }
        i += 1;
    }
    false
}

impl PartTint {
    /// The placeholder tint for a part from its declared categories.
    pub fn for_categories(categories: &Vec<String>) -> (tint: PartTint)
        ensures
            tint == tint_for(categories@),
    {
        if lists_category(categories, "engine") {
            PartTint::Engine
        } else if lists_category(categories, "fuel tank") {
            PartTint::FuelTank
        } else {
            PartTint::Structure
        }
    }
}

/// A graph laid out the way [`plan_stack`] wires a stack of `parts`, all in `vessel`.
pub open spec fn wired_as_stack(graph: Seq<PartNode>, parts: Seq<u64>, vessel: u64) -> bool {
    &&& graph.len() == parts.len()
    &&& forall|i: int| 0 <= i < parts.len() ==> {
        &&& (#[trigger] graph[i]).entity == parts[i]
        &&& graph[i].vessel == vessel
        &&& graph[i].attached_below == stack_below(parts, i)
        &&& graph[i].connections@ == stack_neighbours(parts, i)
    }
}

/// Every position on a walk from the part at `k` stays at or above `k`.
proof fn lemma_walk_stays_above(graph: Seq<PartNode>, parts: Seq<u64>, vessel: u64, k: int, w: Seq<u64>, t: int)
    requires
        wired_as_stack(graph, parts, vessel),
        entities_unique(graph),
        0 < k < parts.len(),
        is_walk(graph, parts[k], severed_below(graph, parts[k]), w),
        0 <= t < w.len(),
    ensures
        exists|idx: int| k <= idx < parts.len() && w[t] == #[trigger] parts[idx],
    decreases t,
{
    let start = parts[k];
    let severed = severed_below(graph, start);
    assert(graph[k].entity == start);
    assert(is_first(graph, start, k)) by {
        assert forall|j: int| 0 <= j < k implies #[trigger] graph[j].entity != start by {
            assert(graph[j].entity != graph[k].entity);
        }
    }
    lemma_first_unique(graph, start, k);
    assert(severed == Some(parts[k - 1]));
    if t == 0 {
        assert(w[0] == parts[k]);
    } else {
        lemma_walk_stays_above(graph, parts, vessel, k, w, t - 1);
        let idx = choose|idx: int| k <= idx < parts.len() && w[t - 1] == #[trigger] parts[idx];
        assert(joined(graph, start, severed, w[t - 1], w[t]));
        assert(graph[idx].entity == parts[idx]);
        assert(is_first(graph, parts[idx], idx)) by {
            assert forall|j: int| 0 <= j < idx implies #[trigger] graph[j].entity != parts[idx] by {
                assert(graph[j].entity != graph[idx].entity);
            }
        }
        lemma_first_unique(graph, parts[idx], idx);
        let nb = stack_neighbours(parts, idx);
        assert(neighbours_of(graph, w[t - 1]) == nb);
        let x = choose|x: int| 0 <= x < nb.len() && nb[x] == w[t];
        if idx > 0 && x == 0 {
            assert(w[t] == parts[idx - 1]);
            if idx == k {
                assert(false);
            }
        } else {
            assert(w[t] == parts[idx + 1]);
        }
    }
}

/// Law: firing the decoupler at position `k` of an assembled stack separates exactly the
/// parts beneath it, bottom first.
///
/// For a stack wired by [`plan_stack`] whose parts are distinct and all belong to one
/// vessel, destroying the joint that holds part `k` to the part below it leaves parts
/// `k..` together and splits off parts `0..k`, in stack order.
pub proof fn lemma_decoupling_drops_the_parts_below(graph: Seq<PartNode>, parts: Seq<u64>, vessel: u64, k: int)
    requires
        wired_as_stack(graph, parts, vessel),
        entities_unique(graph),
        0 < k < parts.len(),
    ensures
        separated_parts(graph, parts[k], vessel) == parts.subrange(0, k),
{
    let n = parts.len() as int;
    let start = parts[k];
    let severed = severed_below(graph, start);
    assert forall|i: int| 0 <= i < n implies is_first(graph, #[trigger] parts[i], i) by {
        assert(graph[i].entity == parts[i]);
        assert forall|j: int| 0 <= j < i implies #[trigger] graph[j].entity != parts[i] by {
            assert(graph[j].entity != graph[i].entity);
        }
    }
    assert(is_first(graph, start, k));
    lemma_first_unique(graph, start, k);

    // Parts at or above k are still held to it.
    assert forall|j: int| k <= j < n implies still_attached(graph, start, #[trigger] parts[j]) by {
        let w = parts.subrange(k, j + 1);
        assert forall|t: int| 0 <= t < w.len() - 1 implies joined(graph, start, severed, #[trigger] w[t], w[t + 1]) by {
            let idx = k + t;
            assert(w[t] == parts[idx] && w[t + 1] == parts[idx + 1]);
            assert(is_first(graph, parts[idx], idx));
            lemma_first_unique(graph, parts[idx], idx);
            let nb = stack_neighbours(parts, idx);
            if idx > 0 {
                assert(nb[1] == parts[idx + 1]);
            } else {
                assert(nb[0] == parts[idx + 1]);
            }
            assert(nb.contains(parts[idx + 1]));
            if idx == k {
                assert(graph[k + 1].entity != graph[k - 1].entity);
            }
        }
        assert(is_walk(graph, start, severed, w));
        assert(w.last() == parts[j]);
    }
    // Parts below k are not.
    assert forall|j: int| 0 <= j < k implies !still_attached(graph, start, #[trigger] parts[j]) by {
        if still_attached(graph, start, parts[j]) {
            let w = choose|w: Seq<u64>| #[trigger] is_walk(graph, start, severed, w) && w.last() == parts[j];
            lemma_walk_stays_above(graph, parts, vessel, k, w, w.len() - 1);
            let idx = choose|idx: int| k <= idx < parts.len() && w[w.len() - 1] == #[trigger] parts[idx];
            assert(graph[idx].entity != graph[j].entity);
        }
    }
    lemma_separated_prefix_of_stack(graph, parts, vessel, k, n);
}

proof fn lemma_separated_prefix_of_stack(graph: Seq<PartNode>, parts: Seq<u64>, vessel: u64, k: int, m: int)
    requires
        wired_as_stack(graph, parts, vessel),
        0 < k < parts.len(),
        0 <= m <= parts.len(),
        forall|j: int| k <= j < parts.len() ==> still_attached(graph, parts[k], #[trigger] parts[j]),
        forall|j: int| 0 <= j < k ==> !still_attached(graph, parts[k], #[trigger] parts[j]),
    ensures
        crate::vessel::staging::separated_prefix(graph, parts[k], vessel, m) == parts.subrange(0, if m < k { m } else { k }),
    decreases m,
{
    if m > 0 {
        lemma_separated_prefix_of_stack(graph, parts, vessel, k, m - 1);
        assert(graph[m - 1].entity == parts[m - 1]);
        if m - 1 < k {
            assert(parts.subrange(0, m) =~= parts.subrange(0, m - 1).push(parts[m - 1]));
        }
    } else {
        assert(parts.subrange(0, 0) =~= Seq::<u64>::empty());
    }
}

} // verus!

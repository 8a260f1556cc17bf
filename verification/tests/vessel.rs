use kraken_space_program::vessel::assembly::{plan_stack, stack_root, PartTint, StackSlot};
use kraken_space_program::vessel::damage::{destroy_on_impact, ImpactReport, PartOwner, VesselStatus};
use kraken_space_program::vessel::staging::{
    parts_below, request_stage, split_vessel, CurrentStage, DecouplerState, PartGraph, PartNode,
    StageActivated,
};

const VESSEL: u64 = 100;

/// A graph of a stack of `parts` wired the way assembly wires it, root at the top.
fn stack_graph(parts: &[u64]) -> PartGraph {
    let slots: Vec<StackSlot> = plan_stack(&parts.to_vec(), &vec![false; parts.len()]);
    let last = parts.len() - 1;
    PartGraph {
        parts: slots
            .iter()
            .enumerate()
            .map(|(i, slot)| PartNode {
                entity: slot.entity,
                vessel: VESSEL,
                connections: slot.connections.clone(),
                attached_below: slot.attached_below,
                is_root: i == last,
            })
            .collect(),
    }
}

#[test]
fn staging_fires_the_current_stage_and_advances_it() {
    let mut stage = CurrentStage(0);
    let mut latch = true;
    assert_eq!(request_stage(&mut stage, &mut latch, false), Some(StageActivated(0)));
    assert_eq!(stage, CurrentStage(1));
    assert!(!latch);
    assert_eq!(request_stage(&mut stage, &mut latch, true), Some(StageActivated(1)));
    assert_eq!(stage, CurrentStage(2));
}

#[test]
fn no_request_means_no_stage() {
    let mut stage = CurrentStage(3);
    let mut latch = false;
    assert_eq!(request_stage(&mut stage, &mut latch, false), None);
    assert_eq!(stage, CurrentStage(3));
}

#[test]
fn latch_and_key_together_stage_once() {
    let mut stage = CurrentStage(0);
    let mut latch = true;
    assert_eq!(request_stage(&mut stage, &mut latch, true), Some(StageActivated(0)));
    assert_eq!(stage, CurrentStage(1));
    assert!(!latch);
}

#[test]
fn a_decoupler_fires_once_on_its_own_stage() {
    let mut decoupler = DecouplerState { stage: 1, fired: false };
    assert!(!decoupler.fire_on(0));
    assert!(decoupler.fire_on(1));
    assert!(decoupler.fired);
    assert!(!decoupler.fire_on(1));
    assert!(!decoupler.fire_on(2));
}

#[test]
fn decoupling_a_stack_drops_everything_below() {
    let parts = [10, 11, 12, 13, 14];
    let graph = stack_graph(&parts);
    assert_eq!(parts_below(&graph, 12, VESSEL), vec![10, 11]);
    assert_eq!(parts_below(&graph, 11, VESSEL), vec![10]);
    assert_eq!(parts_below(&graph, 14, VESSEL), vec![10, 11, 12, 13]);
}

#[test]
fn the_bottom_part_holds_nothing_below() {
    let graph = stack_graph(&[10, 11, 12]);
    assert!(parts_below(&graph, 10, VESSEL).is_empty());
    assert!(split_vessel(&graph, 10, VESSEL).is_none());
}

#[test]
fn a_branching_vessel_keeps_what_is_still_connected() {
    // 1 is the core; 2 hangs below it through its own joint; 3 is a radial booster joined
    // to 1; 4 is below 2.
    let node = |entity: u64, connections: Vec<u64>, below: Option<u64>, root: bool| PartNode {
        entity,
        vessel: VESSEL,
        connections,
        attached_below: below,
        is_root: root,
    };
    let graph = PartGraph {
        parts: vec![
            node(1, vec![2, 3], Some(2), true),
            node(2, vec![1, 4], Some(4), false),
            node(3, vec![1], None, false),
            node(4, vec![2], None, false),
        ],
    };
    assert_eq!(parts_below(&graph, 1, VESSEL), vec![2, 4]);
    assert_eq!(parts_below(&graph, 2, VESSEL), vec![4]);
}

#[test]
fn other_vessels_parts_never_separate() {
    let mut graph = stack_graph(&[10, 11, 12]);
    graph.parts.push(PartNode {
        entity: 50,
        vessel: 200,
        connections: vec![],
        attached_below: None,
        is_root: true,
    });
    assert_eq!(parts_below(&graph, 11, VESSEL), vec![10]);
}

#[test]
fn the_separated_half_gets_its_own_root() {
    let graph = stack_graph(&[10, 11, 12, 13]);
    let plan = split_vessel(&graph, 12, VESSEL).expect("the decoupler was holding parts");
    assert_eq!(plan.separated_parts, vec![10, 11]);
    assert_eq!(plan.new_root, Some(10));
}

#[test]
fn when_the_root_breaks_away_the_remaining_half_gets_a_new_one() {
    // Root at the bottom this time: a structural failure above it takes the root away.
    let mut graph = stack_graph(&[10, 11, 12, 13]);
    for part in graph.parts.iter_mut() {
        part.is_root = part.entity == 10;
    }
    let plan = split_vessel(&graph, 12, VESSEL).expect("something broke away");
    assert_eq!(plan.separated_parts, vec![10, 11]);
    assert_eq!(plan.new_root, Some(12));
}

#[test]
fn a_stack_plan_links_neighbours_and_groups_fuel_at_decouplers() {
    let slots = plan_stack(&vec![1, 2, 3, 4, 5], &vec![false, false, true, false, false]);
    let groups: Vec<u32> = slots.iter().map(|s| s.fuel_group).collect();
    assert_eq!(groups, vec![0, 0, 1, 1, 1]);
    let below: Vec<Option<u64>> = slots.iter().map(|s| s.attached_below).collect();
    assert_eq!(below, vec![None, Some(1), Some(2), Some(3), Some(4)]);
    assert_eq!(slots[0].connections, vec![2]);
    assert_eq!(slots[2].connections, vec![2, 4]);
    assert_eq!(slots[4].connections, vec![4]);
}

#[test]
fn a_single_part_stack_has_no_links() {
    let slots = plan_stack(&vec![9], &vec![true]);
    assert_eq!(slots.len(), 1);
    assert_eq!(slots[0].fuel_group, 1);
    assert_eq!(slots[0].attached_below, None);
    assert!(slots[0].connections.is_empty());
}

#[test]
fn placeholder_tints_follow_categories() {
    let cats = |names: &[&str]| names.iter().map(|s| s.to_string()).collect::<Vec<String>>();
    assert_eq!(PartTint::for_categories(&cats(&["engine"])), PartTint::Engine);
    assert_eq!(PartTint::for_categories(&cats(&["fuel tank"])), PartTint::FuelTank);
    assert_eq!(PartTint::for_categories(&cats(&["fuel tank", "engine"])), PartTint::Engine);
    assert_eq!(PartTint::for_categories(&cats(&["structural"])), PartTint::Structure);
    assert_eq!(PartTint::for_categories(&cats(&[])), PartTint::Structure);
}

fn owners() -> Vec<PartOwner> {
    vec![
        PartOwner { part: 1, vessel: 100 },
        PartOwner { part: 2, vessel: 100 },
        PartOwner { part: 3, vessel: 200 },
    ]
}

fn intact(vessels: &[u64]) -> Vec<VesselStatus> {
    vessels
        .iter()
        .map(|&vessel| VesselStatus { vessel, destroyed: false })
        .collect()
}

const GROUND: u64 = 999;

#[test]
fn a_gentle_impact_wrecks_nothing() {
    let impacts = vec![ImpactReport { part: 1, other: GROUND, hard: false }];
    assert!(destroy_on_impact(&impacts, &owners(), &intact(&[100, 200])).is_empty());
}

#[test]
fn a_hard_impact_wrecks_the_vessel() {
    let impacts = vec![ImpactReport { part: 1, other: GROUND, hard: true }];
    assert_eq!(destroy_on_impact(&impacts, &owners(), &intact(&[100, 200])), vec![100]);
}

#[test]
fn a_vessel_grinding_against_itself_is_not_a_crash() {
    let impacts = vec![ImpactReport { part: 1, other: 2, hard: true }];
    assert!(destroy_on_impact(&impacts, &owners(), &intact(&[100, 200])).is_empty());
}

#[test]
fn a_vessel_is_wrecked_only_once() {
    let impacts = vec![
        ImpactReport { part: 1, other: GROUND, hard: true },
        ImpactReport { part: 2, other: GROUND, hard: true },
        ImpactReport { part: 3, other: 1, hard: true },
    ];
    assert_eq!(destroy_on_impact(&impacts, &owners(), &intact(&[100, 200])), vec![100, 200]);
    let already = vec![
        VesselStatus { vessel: 100, destroyed: true },
        VesselStatus { vessel: 200, destroyed: false },
    ];
    assert_eq!(destroy_on_impact(&impacts, &owners(), &already), vec![200]);
}

#[test]
fn impacts_on_unknown_parts_or_vessels_are_ignored() {
    let impacts = vec![
        ImpactReport { part: 77, other: GROUND, hard: true },
        ImpactReport { part: 3, other: GROUND, hard: true },
    ];
    assert!(destroy_on_impact(&impacts, &owners(), &intact(&[100])).is_empty());
}

/// A one-part vessel hit once, as the application reports it: `hard` is whether the
/// impact speed exceeded the survivable limit.
fn one_part_vessel_survives(hard: bool) -> bool {
    let owners = vec![PartOwner { part: 1, vessel: 100 }];
    let impacts = vec![ImpactReport { part: 1, other: GROUND, hard }];
    destroy_on_impact(&impacts, &owners, &intact(&[100])).is_empty()
}

#[test]
fn a_gentle_touchdown_is_survivable() {
    assert!(one_part_vessel_survives(false));
}

#[test]
fn a_hard_landing_destroys_the_vessel() {
    assert!(!one_part_vessel_survives(true));
}

/// The wrecked list is what the application zeroes the controls of, so a crashed vessel
/// stops burning: the vessel hit must be in it, exactly once, however many of its parts hit.
#[test]
fn destruction_cuts_the_throttle() {
    let owners = vec![PartOwner { part: 1, vessel: 100 }, PartOwner { part: 2, vessel: 100 }];
    let impacts = vec![
        ImpactReport { part: 1, other: GROUND, hard: true },
        ImpactReport { part: 2, other: GROUND, hard: true },
    ];
    assert_eq!(destroy_on_impact(&impacts, &owners, &intact(&[100])), vec![100]);
}

#[test]
fn the_topmost_part_is_the_root() {
    assert_eq!(stack_root(&vec![11, 12, 13]), Some(13));
    assert_eq!(stack_root(&vec![11]), Some(11));
    assert_eq!(stack_root(&Vec::new()), None);
}

use kraken_space_program::physics::joints::{
    JointObservation, JointOverloadTracker, JointReading, TICKS_OVER_LIMIT_BEFORE_FAILURE,
};

fn tick(tracker: &mut JointOverloadTracker, observations: &[(u64, bool)]) -> Vec<u64> {
    let observed: Vec<JointObservation> = observations
        .iter()
        .map(|&(joint, overloaded)| JointObservation {
            joint,
            reading: if overloaded {
                JointReading::Overloaded
            } else {
                JointReading::WithinLimits
            },
        })
        .collect();
    tracker.observe(&observed)
}

#[test]
fn a_joint_breaks_on_its_third_overloaded_tick() {
    assert_eq!(TICKS_OVER_LIMIT_BEFORE_FAILURE, 3);
    let mut tracker = JointOverloadTracker::new();
    assert!(tick(&mut tracker, &[(7, true)]).is_empty());
    assert!(tick(&mut tracker, &[(7, true)]).is_empty());
    assert_eq!(tick(&mut tracker, &[(7, true)]), vec![7]);
}

#[test]
fn a_single_contact_transient_breaks_nothing() {
    let mut tracker = JointOverloadTracker::new();
    for _ in 0..10 {
        assert!(tick(&mut tracker, &[(1, true), (2, false)]).is_empty());
        assert!(tick(&mut tracker, &[(1, false), (2, true)]).is_empty());
    }
}

#[test]
fn a_calm_tick_resets_the_count() {
    let mut tracker = JointOverloadTracker::new();
    assert!(tick(&mut tracker, &[(4, true)]).is_empty());
    assert!(tick(&mut tracker, &[(4, true)]).is_empty());
    assert!(tick(&mut tracker, &[(4, false)]).is_empty());
    assert!(tick(&mut tracker, &[(4, true)]).is_empty());
    assert!(tick(&mut tracker, &[(4, true)]).is_empty());
    assert_eq!(tick(&mut tracker, &[(4, true)]), vec![4]);
}

#[test]
fn a_joint_that_disappears_forgets_its_history() {
    let mut tracker = JointOverloadTracker::new();
    assert!(tick(&mut tracker, &[(9, true), (3, true)]).is_empty());
    assert!(tick(&mut tracker, &[(9, true), (3, true)]).is_empty());
    // Joint 3 was removed (staged away); it comes back as a new joint with no history.
    assert_eq!(tick(&mut tracker, &[(9, true)]), vec![9]);
    assert!(tick(&mut tracker, &[(3, true)]).is_empty());
}

#[test]
fn failures_are_reported_in_observation_order() {
    let mut tracker = JointOverloadTracker::new();
    for _ in 0..2 {
        assert!(tick(&mut tracker, &[(5, true), (2, true), (8, false)]).is_empty());
    }
    assert_eq!(tick(&mut tracker, &[(5, true), (2, true), (8, true)]), vec![5, 2]);
}

#[test]
fn an_unread_joint_keeps_its_count() {
    let mut tracker = JointOverloadTracker::new();
    assert!(tick(&mut tracker, &[(6, true)]).is_empty());
    assert!(tick(&mut tracker, &[(6, true)]).is_empty());
    let unread = vec![JointObservation { joint: 6, reading: JointReading::Unread }];
    assert!(tracker.observe(&unread).is_empty());
    assert_eq!(tick(&mut tracker, &[(6, true)]), vec![6]);
}

#[test]
fn a_joint_breaks_on_its_third_overloaded_tick_whatever_its_neighbours_do() {
    let mut tracker = JointOverloadTracker::new();
    assert!(tick(&mut tracker, &[(1, false), (7, true), (2, true)]).is_empty());
    assert!(tick(&mut tracker, &[(7, true), (1, true), (3, false)]).is_empty());
    assert_eq!(tick(&mut tracker, &[(2, false), (1, false), (7, true)]), vec![7]);
}

#[test]
fn a_calm_tick_among_other_joints_resets_the_count() {
    let mut tracker = JointOverloadTracker::new();
    assert!(tick(&mut tracker, &[(4, true), (5, true)]).is_empty());
    assert!(tick(&mut tracker, &[(4, true), (5, true)]).is_empty());
    assert!(tick(&mut tracker, &[(5, true), (4, false)]).len() == 1);
    assert!(tick(&mut tracker, &[(4, true), (5, false)]).is_empty());
    assert!(tick(&mut tracker, &[(4, true), (5, false)]).is_empty());
    assert_eq!(tick(&mut tracker, &[(4, true), (5, false)]), vec![4]);
}

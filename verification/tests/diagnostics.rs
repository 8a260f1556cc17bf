use kraken_space_program::diagnostics::test_pilot::{stage_on_flameout, Profile};

#[test]
fn pilot_profiles_parse_by_name() {
    assert_eq!(Profile::parse("idle"), Some(Profile::Idle));
    assert_eq!(Profile::parse("hop"), Some(Profile::Hop));
    assert_eq!(Profile::parse("ballistic"), Some(Profile::Ballistic));
    assert_eq!(Profile::parse("ascent"), Some(Profile::Ascent));
    assert_eq!(Profile::parse("orbit"), None);
    assert_eq!(Profile::parse("HOP"), None);
}

#[test]
fn the_pilot_does_not_stage_before_the_engines_light() {
    let mut seen = false;
    // Throttle open, engines not yet delivering: this is ignition, not flameout.
    assert!(!stage_on_flameout(&mut seen, false, true));
    assert!(!seen);
}

#[test]
fn the_pilot_stages_once_per_flameout() {
    let mut seen = false;
    assert!(!stage_on_flameout(&mut seen, true, true));
    assert!(seen);
    // The first stage runs dry.
    assert!(stage_on_flameout(&mut seen, false, true));
    assert!(!seen);
    // Still short of thrust on the next tick: no second request.
    assert!(!stage_on_flameout(&mut seen, false, true));
    // The next stage lights, and later runs dry too.
    assert!(!stage_on_flameout(&mut seen, true, true));
    assert!(stage_on_flameout(&mut seen, false, true));
}

#[test]
fn a_closed_throttle_is_not_a_flameout() {
    let mut seen = true;
    assert!(!stage_on_flameout(&mut seen, false, false));
    assert!(seen);
}

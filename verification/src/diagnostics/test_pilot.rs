//! The scripted pilot's profiles, and its staging rule.
//!
//! The pilot flies with exactly the controls a player has. The one decision it makes that
//! is not arithmetic on the flight state is when to stage: on flameout — commanded thrust
//! failing to arrive — through the same one-shot latch the stage key uses.

use vstd::prelude::*;

use crate::text::same_text;

verus! {

/// A scripted flight profile.
#[derive(Debug, Clone, Copy, PartialEq, Eq, Structural)]
pub enum Profile {
    /// Sit still. Useful for watching a vessel settle onto the pad.
    Idle,
    /// Up a few tens of metres, then a controlled descent to a soft landing.
    Hop,
    /// Burn to a few kilometres and let it fall back.
    Ballistic,
    /// Straight up, staging on flameout, until the atmosphere runs out.
    Ascent,
}

/// The profile a name selects, if it names one.
pub open spec fn profile_named(name: Seq<char>) -> Option<Profile> {
    if name == "idle"@ {
        Some(Profile::Idle)
    } else if name == "hop"@ {
        Some(Profile::Hop)
    } else if name == "ballistic"@ {
        Some(Profile::Ballistic)
    } else if name == "ascent"@ {
        Some(Profile::Ascent)
    } else {
        None
    }
}

impl Profile {
    /// Reads a profile name: `idle`, `hop`, `ballistic` or `ascent`.
    pub fn parse(name: &str) -> (profile: Option<Profile>)
        ensures
            profile == profile_named(name@),
    {
        if same_text(name, "idle") {
            Some(Profile::Idle)
        } else if same_text(name, "hop") {
            Some(Profile::Hop)
        } else if same_text(name, "ballistic") {
            Some(Profile::Ballistic)
        } else if same_text(name, "ascent") {
            Some(Profile::Ascent)
        } else {
            None
        }
    }
}

/// Whether an observation asks to stage, given whether full thrust has been seen since the
/// last request.
pub open spec fn flameout_requests(thrust_seen: bool, lit: bool, throttle_open: bool) -> bool {
    !lit && thrust_seen && throttle_open
}

/// Whether full thrust has been seen since the last request, after an observation.
pub open spec fn thrust_seen_after(thrust_seen: bool, lit: bool, throttle_open: bool) -> bool {
    if lit {
        true
    } else if flameout_requests(thrust_seen, lit, throttle_open) {
        false
    } else {
        thrust_seen
    }
}

/// Decides whether to stage on this tick's engine reading.
///
/// `lit` is whether the engines deliver (essentially) all their rated thrust; flameout is
/// *some* commanded thrust failing to arrive while the throttle is open. Full thrust is also
/// the state of a rocket the instant before its engines light, so a request is made only
/// once full thrust has been seen since the previous request — one request per flameout,
/// not one per tick, and never on the launch pad.
pub fn stage_on_flameout(thrust_seen: &mut bool, lit: bool, throttle_open: bool) -> (request: bool)
    ensures
        request == flameout_requests(*old(thrust_seen), lit, throttle_open),
        *final(thrust_seen) == thrust_seen_after(*old(thrust_seen), lit, throttle_open),
{
    if lit {
        *thrust_seen = true;
        false
    } else if *thrust_seen && throttle_open {
        *thrust_seen = false;
        true
    } else {
        false
    }
}

/// Law: one stage request per flameout. After a request, no further request is made until
/// full thrust has been seen again, however many flamed-out ticks follow.
pub proof fn lemma_one_request_per_flameout(seen: bool, lit: bool, open: bool, later_open: bool)
    requires
        flameout_requests(seen, lit, open),
    ensures
        !flameout_requests(thrust_seen_after(seen, lit, open), false, later_open),
        !thrust_seen_after(thrust_seen_after(seen, lit, open), false, later_open),
{
}

} // verus!

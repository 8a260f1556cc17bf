//! Flight diagnostics: the scripted test pilot's decisions.

pub mod test_pilot;

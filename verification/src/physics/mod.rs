//! Physics decisions: what the joint solver's reports mean for the vessel.

pub mod joints;

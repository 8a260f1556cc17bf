//! The Kraken SDK — what Lua part definitions compile into, and the rules they follow.

pub mod assets;
pub mod part_def;
pub mod registry;
pub mod sandbox;
pub mod shape;

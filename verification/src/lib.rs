//! Kraken Space Program: the engine's decision logic, with its contracts.
//!
//! Staging, vessel splitting, structural-failure bookkeeping, impact triage, the part
//! registry and the part-definition vocabulary live here. Everything that integrates
//! floating-point physics, renders, or runs a Lua VM lives in the application around it.

pub mod diagnostics;
pub mod physics;
pub mod sdk;
mod text;
pub mod vessel;

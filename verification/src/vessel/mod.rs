//! Vessels — how they are assembled, staged, split and wrecked.

pub mod staging;
pub mod assembly;
pub mod damage;

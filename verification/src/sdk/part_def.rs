//! The vocabulary of a part definition's `modules` list.
//!
//! A module table is tagged with its type by the constructor that built it —
//! `engine { ... }` is `{ ..., __kraken_module = "engine" }` — and the part parser
//! dispatches on that tag. Adding a module type means adding a kind here.

use vstd::prelude::*;

use crate::text::same_text;

verus! {

/// Field used to tag a module table with its type.
pub const MODULE_TAG: &'static str = "__kraken_module";

/// The module types a part definition may declare.
#[derive(Debug, Clone, Copy, PartialEq, Eq, Structural)]
pub enum ModuleKind {
    Engine,
    ResourceContainer,
    Decoupler,
}

/// The module type a tag names, if it names one.
pub open spec fn module_kind_named(tag: Seq<char>) -> Option<ModuleKind> {
    if tag == "engine"@ {
        Some(ModuleKind::Engine)
    } else if tag == "resource_container"@ {
        Some(ModuleKind::ResourceContainer)
    } else if tag == "decoupler"@ {
        Some(ModuleKind::Decoupler)
    } else {
        None
    }
}

impl ModuleKind {
    /// Reads a module tag. Anything else is an unknown module type.
    pub fn parse(tag: &str) -> (kind: Option<ModuleKind>)
        ensures
            kind == module_kind_named(tag@),
    {
        if same_text(tag, "engine") {
            Some(ModuleKind::Engine)
        } else if same_text(tag, "resource_container") {
            Some(ModuleKind::ResourceContainer)
        } else if same_text(tag, "decoupler") {
            Some(ModuleKind::Decoupler)
        } else {
            None
        }
    }
}

} // verus!

//! Declared part geometry: which form a part takes.
//!
//! A part definition says `shape = { kind = "engine", radius = 0.625 }`. The kind is the
//! authoritative form of the part — its collider and its placeholder mesh are both built
//! from it — so the set of accepted names is fixed here, and anything else is an error the
//! definition's author gets to read.

use vstd::prelude::*;

use crate::text::same_text;

verus! {

/// The form of a part, for both collision and its placeholder mesh.
#[derive(Debug, Clone, Copy, PartialEq, Eq, Structural)]
pub enum ShapeKind {
    /// A plain tube. Fuel tanks, structural sections.
    Cylinder,
    /// A body with a nozzle bell flaring out below it.
    Engine,
    /// A short, slightly oversized disc — visibly a seam in the stack.
    Decoupler,
    /// A cone, point upward.
    NoseCone,
    /// A footpad on a strut, splayed outward from the stack.
    LandingLeg,
}

/// The kind a definition file means by `name`, if it names one.
pub open spec fn shape_kind_named(name: Seq<char>) -> Option<ShapeKind> {
    if name == "cylinder"@ {
        Some(ShapeKind::Cylinder)
    } else if name == "engine"@ {
        Some(ShapeKind::Engine)
    } else if name == "decoupler"@ {
        Some(ShapeKind::Decoupler)
    } else if name == "nose_cone"@ {
        Some(ShapeKind::NoseCone)
    } else if name == "landing_leg"@ {
        Some(ShapeKind::LandingLeg)
    } else {
        None
    }
}

impl ShapeKind {
    /// Every accepted kind name, for error messages.
    pub const NAMES: &'static str = "cylinder, engine, decoupler, nose_cone, landing_leg";

    /// Reads a kind name as written in a definition file. Names are exact and lower case.
    pub fn parse(name: &str) -> (kind: Option<ShapeKind>)
        ensures
            kind == shape_kind_named(name@),
    {
        if same_text(name, "cylinder") {
            Some(ShapeKind::Cylinder)
        } else if same_text(name, "engine") {
            Some(ShapeKind::Engine)
        } else if same_text(name, "decoupler") {
            Some(ShapeKind::Decoupler)
        } else if same_text(name, "nose_cone") {
            Some(ShapeKind::NoseCone)
        } else if same_text(name, "landing_leg") {
            Some(ShapeKind::LandingLeg)
        } else {
            None
        }
    }
}

} // verus!

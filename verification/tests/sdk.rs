use kraken_space_program::sdk::assets::resolve_asset_path;
use kraken_space_program::sdk::part_def::{ModuleKind, MODULE_TAG};
use kraken_space_program::sdk::registry::{compare_ids, IdOrder, PartRegistry, RegistryEntry};
use kraken_space_program::sdk::sandbox::{
    definition_globals, InstructionBudget, INSTRUCTION_CHECK_INTERVAL, LOAD_INSTRUCTION_BUDGET,
};
use kraken_space_program::sdk::shape::ShapeKind;

#[test]
fn every_documented_shape_kind_parses() {
    assert_eq!(ShapeKind::parse("cylinder"), Some(ShapeKind::Cylinder));
    assert_eq!(ShapeKind::parse("engine"), Some(ShapeKind::Engine));
    assert_eq!(ShapeKind::parse("decoupler"), Some(ShapeKind::Decoupler));
    assert_eq!(ShapeKind::parse("nose_cone"), Some(ShapeKind::NoseCone));
    assert_eq!(ShapeKind::parse("landing_leg"), Some(ShapeKind::LandingLeg));
}

#[test]
fn unknown_shape_kinds_are_rejected() {
    assert_eq!(ShapeKind::parse("sphere"), None);
    assert_eq!(ShapeKind::parse("Engine"), None);
    assert_eq!(ShapeKind::parse(""), None);
    assert_eq!(ShapeKind::parse("engine "), None);
}

#[test]
fn shape_names_list_every_kind() {
    for name in ShapeKind::NAMES.split(", ") {
        assert!(ShapeKind::parse(name).is_some(), "{name} should parse");
    }
    assert_eq!(ShapeKind::NAMES.split(", ").count(), 5);
}

#[test]
fn a_bare_filename_resolves_next_to_its_definition() {
    assert_eq!(
        resolve_asset_path("fueltank_1.glb", "parts/kraken_stock"),
        "parts/kraken_stock/fueltank_1.glb"
    );
}

#[test]
fn a_repository_relative_path_drops_its_assets_prefix() {
    assert_eq!(
        resolve_asset_path("assets/parts/engine_spark.glb", "parts/kraken_stock"),
        "parts/engine_spark.glb"
    );
    assert_eq!(
        resolve_asset_path("/assets/parts/engine_spark.glb", "parts/kraken_stock"),
        "parts/engine_spark.glb"
    );
}

#[test]
fn both_spellings_of_a_mesh_path_land_in_the_same_place() {
    let dir = "parts/kraken_stock";
    assert_eq!(
        resolve_asset_path("fueltank_1.glb", dir),
        resolve_asset_path("assets/parts/kraken_stock/fueltank_1.glb", dir)
    );
}

#[test]
fn leading_slashes_are_dropped() {
    assert_eq!(resolve_asset_path("//tank.glb", "parts"), "parts/tank.glb");
    assert_eq!(resolve_asset_path("/meshes/tank.glb", "parts"), "meshes/tank.glb");
}

#[test]
fn with_no_directory_a_bare_filename_stays_bare() {
    assert_eq!(resolve_asset_path("tank.glb", ""), "tank.glb");
    assert_eq!(resolve_asset_path("assets/tank.glb", ""), "tank.glb");
}

#[test]
fn module_tags_dispatch_to_their_kind() {
    assert_eq!(ModuleKind::parse("engine"), Some(ModuleKind::Engine));
    assert_eq!(
        ModuleKind::parse("resource_container"),
        Some(ModuleKind::ResourceContainer)
    );
    assert_eq!(ModuleKind::parse("decoupler"), Some(ModuleKind::Decoupler));
    assert_eq!(ModuleKind::parse("reaction_wheel"), None);
    assert_eq!(MODULE_TAG, "__kraken_module");
}

fn entry(id: &str, definition: u32) -> RegistryEntry<u32> {
    RegistryEntry {
        id: id.to_string(),
        definition,
    }
}

#[test]
fn the_registry_is_sorted_by_id() {
    let (registry, duplicates) = PartRegistry::from_loaded(vec![
        entry("kraken.fueltank.small.03", 1),
        entry("kraken.engine.spark", 2),
        entry("kraken.decoupler.small", 3),
        entry("kraken.engine.reliant", 4),
    ]);
    assert!(duplicates.is_empty());
    let ids: Vec<&str> = registry.iter().iter().map(|e| e.id.as_str()).collect();
    assert_eq!(
        ids,
        vec![
            "kraken.decoupler.small",
            "kraken.engine.reliant",
            "kraken.engine.spark",
            "kraken.fueltank.small.03"
        ]
    );
    assert_eq!(registry.len(), 4);
    assert!(!registry.is_empty());
}

#[test]
fn the_first_loaded_definition_of_an_id_wins() {
    let (registry, duplicates) = PartRegistry::from_loaded(vec![
        entry("a.tank", 1),
        entry("b.engine", 2),
        entry("a.tank", 3),
        entry("a.tank", 4),
    ]);
    assert_eq!(registry.get("a.tank"), Some(&1));
    assert_eq!(registry.get("b.engine"), Some(&2));
    assert_eq!(registry.len(), 2);
    assert_eq!(duplicates, vec!["a.tank".to_string(), "a.tank".to_string()]);
}

#[test]
fn duplicates_are_reported_in_id_order() {
    let (registry, duplicates) = PartRegistry::from_loaded(vec![
        entry("c.pod", 1),
        entry("b.tank", 2),
        entry("c.pod", 3),
        entry("a.leg", 4),
        entry("b.tank", 5),
        entry("a.leg", 6),
    ]);
    assert_eq!(registry.len(), 3);
    assert_eq!(registry.get("c.pod"), Some(&1));
    assert_eq!(
        duplicates,
        vec!["a.leg".to_string(), "b.tank".to_string(), "c.pod".to_string()]
    );
}

#[test]
fn unknown_ids_are_not_found() {
    let (registry, _) = PartRegistry::from_loaded(vec![entry("b", 1), entry("d", 2)]);
    assert_eq!(registry.get("a"), None);
    assert_eq!(registry.get("c"), None);
    assert_eq!(registry.get("e"), None);
    assert_eq!(registry.get(""), None);
    assert_eq!(registry.get("d"), Some(&2));
}

#[test]
fn an_empty_registry_holds_nothing() {
    let registry: PartRegistry<u32> = PartRegistry::new();
    assert!(registry.is_empty());
    assert_eq!(registry.len(), 0);
    assert_eq!(registry.get("kraken.engine.spark"), None);
    let (built, duplicates) = PartRegistry::<u32>::from_loaded(Vec::new());
    assert!(built.is_empty());
    assert!(duplicates.is_empty());
}

#[test]
fn ids_compare_byte_wise_like_str() {
    for (a, b) in [
        ("a", "b"),
        ("a", "ab"),
        ("", "a"),
        ("Z", "a"),
        ("kraken.engine", "kraken.engine.spark"),
        ("é", "z"),
        ("same", "same"),
    ] {
        let expected = match a.cmp(b) {
            std::cmp::Ordering::Less => IdOrder::Before,
            std::cmp::Ordering::Equal => IdOrder::Same,
            std::cmp::Ordering::Greater => IdOrder::After,
        };
        assert_eq!(compare_ids(a, b), expected, "{a} vs {b}");
    }
}

#[test]
fn a_script_within_budget_keeps_running() {
    let mut budget = InstructionBudget::new(LOAD_INSTRUCTION_BUDGET);
    let checks = LOAD_INSTRUCTION_BUDGET / u64::from(INSTRUCTION_CHECK_INTERVAL);
    for _ in 0..checks {
        assert!(budget.charge_interval());
    }
    assert_eq!(budget.executed, LOAD_INSTRUCTION_BUDGET);
}

#[test]
fn a_runaway_script_is_stopped_and_stays_stopped() {
    let mut budget = InstructionBudget::new(25_000);
    assert!(budget.charge_interval());
    assert!(budget.charge_interval());
    assert!(!budget.charge_interval());
    assert!(!budget.charge_interval());
    assert_eq!(budget.executed, 40_000);
}

#[test]
fn the_instruction_count_saturates() {
    let mut budget = InstructionBudget {
        executed: u64::MAX - 5,
        max_instructions: u64::MAX,
    };
    assert!(budget.charge_interval());
    assert_eq!(budget.executed, u64::MAX);
}

#[test]
fn definition_files_see_only_harmless_globals() {
    assert_eq!(
        definition_globals(),
        vec!["string", "table", "math", "pairs", "ipairs", "type", "tostring"]
    );
    for host in ["io", "os", "require", "package", "debug", "load", "loadfile", "dofile", "coroutine"] {
        assert!(!definition_globals().contains(&host), "{host} must not be visible");
    }
}

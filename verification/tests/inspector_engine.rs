use editor_core::catalog::Catalog;
use editor_core::editor_window::EditorWindowContext;
use editor_core::inspector::add_default_component;
use editor_core::inspector::inspector;
use editor_core::inspector::InspectorError;
use editor_core::inspector::InspectorEvent;
use editor_core::inspector::InspectorOutcome;
use editor_core::inspector::InspectorWindow;
use editor_core::reflect::ReflectRegistry;
use editor_core::reflect::TypeDescriptor;
use editor_core::reflect::WorldModel;
use editor_core::window_state::HierarchyState;
use editor_core::window_state::InspectorState;
use editor_core::window_state::WindowStateValue;

const TRANSFORM_KEY: u64 = 100;
const NAME_KEY: u64 = 101;
const VELOCITY_KEY: u64 = 102;

fn descriptor(path: &str, key: u64, component: bool, bits: u64) -> TypeDescriptor {
    TypeDescriptor {
        type_path: String::from(path),
        type_key: key,
        has_component: component,
        default_bits: bits,
    }
}

/// Registry with Transform, Name and Velocity; only Transform and Velocity
/// expose the component capability.
fn demo_registry() -> ReflectRegistry {
    let mut reg = ReflectRegistry::new();
    assert!(reg.register_type(descriptor("demo::spatial::Transform", TRANSFORM_KEY, true, 11)));
    assert!(reg.register_type(descriptor("demo::meta::Name", NAME_KEY, false, 22)));
    assert!(reg.register_type(descriptor("demo::motion::Velocity", VELOCITY_KEY, true, 33)));
    reg
}

fn names_of(entries: &[editor_core::catalog::CatalogEntry]) -> Vec<String> {
    entries.iter().map(|e| String::from(e.display_name.as_str())).collect()
}

#[test]
fn scan_keeps_component_types_sorted_by_short_name() {
    let reg = demo_registry();
    let catalog = Catalog::scan(&reg);
    assert_eq!(catalog.len(), 2);
    let first = catalog.entry_at(0);
    let second = catalog.entry_at(1);
    // module paths are stripped from the display names
    assert_eq!(first.display_name.as_str(), "Transform");
    assert_eq!(first.type_key, TRANSFORM_KEY);
    assert_eq!(second.display_name.as_str(), "Velocity");
    assert_eq!(second.type_key, VELOCITY_KEY);
}

#[test]
fn scan_sorts_regardless_of_registration_order() {
    let mut reg = ReflectRegistry::new();
    assert!(reg.register_type(descriptor("demo::motion::Velocity", VELOCITY_KEY, true, 0)));
    assert!(reg.register_type(descriptor("demo::spatial::Transform", TRANSFORM_KEY, true, 0)));
    assert!(reg.register_type(descriptor("demo::audio::Emitter", 103, true, 0)));
    let catalog = Catalog::scan(&reg);
    assert_eq!(catalog.len(), 3);
    assert_eq!(catalog.entry_at(0).display_name.as_str(), "Emitter");
    assert_eq!(catalog.entry_at(1).display_name.as_str(), "Transform");
    assert_eq!(catalog.entry_at(2).display_name.as_str(), "Velocity");
}

#[test]
fn scan_keeps_the_first_type_under_a_contested_name() {
    let mut reg = ReflectRegistry::new();
    assert!(reg.register_type(descriptor("demo::a::Thing", 1, true, 0)));
    assert!(reg.register_type(descriptor("demo::b::Thing", 2, true, 0)));
    let catalog = Catalog::scan(&reg);
    assert_eq!(catalog.len(), 1);
    assert_eq!(catalog.entry_at(0).display_name.as_str(), "Thing");
    assert_eq!(catalog.entry_at(0).type_key, 1);
}

#[test]
fn empty_filter_lists_the_whole_catalog_in_order() {
    let reg = demo_registry();
    let catalog = Catalog::scan(&reg);
    let all = catalog.list_matches("");
    assert_eq!(names_of(&all), vec!["Transform".to_string(), "Velocity".to_string()]);
}

#[test]
fn filter_is_case_insensitive_and_keeps_order() {
    let reg = demo_registry();
    let catalog = Catalog::scan(&reg);
    let hits = catalog.list_matches("vel");
    assert_eq!(hits.len(), 1);
    assert_eq!(hits[0].display_name.as_str(), "Velocity");
    assert_eq!(hits[0].type_key, VELOCITY_KEY);
    let upper = catalog.list_matches("VEL");
    assert_eq!(upper.len(), 1);
    assert_eq!(upper[0].display_name.as_str(), "Velocity");
    let mid = catalog.list_matches("o");
    assert_eq!(names_of(&mid), vec!["Transform".to_string(), "Velocity".to_string()]);
    let none = catalog.list_matches("quaternion");
    assert!(none.is_empty());
}

#[test]
fn add_default_component_attaches_a_default_value() {
    let reg = demo_registry();
    let mut world = WorldModel::new();
    assert!(world.spawn(7, None));
    let got = add_default_component(&mut world, &reg, 7, VELOCITY_KEY);
    let value = got.expect("a catalog key must resolve");
    assert_eq!(value.type_key, VELOCITY_KEY);
    assert_eq!(value.bits, 33);
    let stored = world.get_component(7, VELOCITY_KEY).expect("component must be attached");
    assert_eq!(stored.bits, 33);
    assert_eq!(world.component_count(7), 1);
}

#[test]
fn adding_twice_leaves_exactly_one_component() {
    let reg = demo_registry();
    let mut world = WorldModel::new();
    assert!(world.spawn(7, None));
    add_default_component(&mut world, &reg, 7, VELOCITY_KEY).unwrap();
    add_default_component(&mut world, &reg, 7, VELOCITY_KEY).unwrap();
    assert_eq!(world.component_count(7), 1);
    add_default_component(&mut world, &reg, 7, TRANSFORM_KEY).unwrap();
    assert_eq!(world.component_count(7), 2);
}

#[test]
fn stale_type_key_aborts_and_leaves_the_store_unchanged() {
    let mut reg = demo_registry();
    let catalog = Catalog::scan(&reg);
    let mut world = WorldModel::new();
    assert!(world.spawn(7, None));
    // the registry changes after the catalog scan
    reg.remove_type(VELOCITY_KEY);
    let key = catalog.entry_at(1).type_key;
    assert_eq!(key, VELOCITY_KEY);
    let got = add_default_component(&mut world, &reg, 7, key);
    assert_eq!(got, Err(InspectorError::StaleTypeKey));
    assert!(world.get_component(7, VELOCITY_KEY).is_none());
    assert_eq!(world.component_count(7), 0);
}

#[test]
fn entity_name_prefers_the_name_component() {
    let mut world = WorldModel::new();
    assert!(world.spawn(7, None));
    assert!(world.spawn(8, Some(String::from("Player"))));
    assert_eq!(world.entity_name(7).as_str(), "Entity 7");
    assert_eq!(world.entity_name(8).as_str(), "Player");
    assert_eq!(world.entity_name(1230), "Entity 1230");
}

#[test]
fn inspector_with_no_selection_does_nothing() {
    let reg = demo_registry();
    let catalog = Catalog::scan(&reg);
    let mut world = WorldModel::new();
    let mut state = InspectorState { component_search: String::from("vel") };
    let out = inspector(&mut world, &reg, &catalog, None, &mut state, InspectorEvent::Idle);
    assert!(matches!(out, InspectorOutcome::EmptySelection));
    assert_eq!(state.component_search.as_str(), "vel");
}

#[test]
fn inspector_search_filters_and_selection_clears_the_filter() {
    let reg = demo_registry();
    let catalog = Catalog::scan(&reg);
    let mut world = WorldModel::new();
    assert!(world.spawn(7, None));
    let mut state = InspectorState { component_search: String::new() };

    let out = inspector(
        &mut world,
        &reg,
        &catalog,
        Some(7),
        &mut state,
        InspectorEvent::SearchChanged(String::from("vel")),
    );
    match out {
        InspectorOutcome::Listed(hits) => {
            assert_eq!(hits.len(), 1);
            assert_eq!(hits[0].display_name.as_str(), "Velocity");
        },
        _ => panic!("a search must render the filtered list"),
    }
    assert_eq!(state.component_search.as_str(), "vel");

    let out = inspector(
        &mut world,
        &reg,
        &catalog,
        Some(7),
        &mut state,
        InspectorEvent::EntrySelected(VELOCITY_KEY),
    );
    assert!(matches!(out, InspectorOutcome::Added(VELOCITY_KEY)));
    // a successful add clears the search filter
    assert_eq!(state.component_search.as_str(), "");
    assert_eq!(world.component_count(7), 1);
}

#[test]
fn inspector_reports_a_stale_selection_without_side_effects() {
    let mut reg = demo_registry();
    let catalog = Catalog::scan(&reg);
    let mut world = WorldModel::new();
    assert!(world.spawn(7, None));
    reg.remove_type(TRANSFORM_KEY);
    let mut state = InspectorState { component_search: String::from("tra") };
    let out = inspector(
        &mut world,
        &reg,
        &catalog,
        Some(7),
        &mut state,
        InspectorEvent::EntrySelected(TRANSFORM_KEY),
    );
    assert!(matches!(out, InspectorOutcome::Stale(TRANSFORM_KEY)));
    assert_eq!(state.component_search.as_str(), "tra");
    assert_eq!(world.component_count(7), 0);
}

#[test]
fn inspector_window_runs_against_the_context() {
    const HIERARCHY_KIND: u64 = 1;
    const INSPECTOR_KIND: u64 = 2;
    let reg = demo_registry();
    let catalog = InspectorWindow::app_setup(&reg);
    let mut world = WorldModel::new();
    assert!(world.spawn(7, None));

    let mut cx = EditorWindowContext::new();
    assert!(cx.window_states.register(
        HIERARCHY_KIND,
        WindowStateValue::Hierarchy(HierarchyState { selected: Some(7) }),
    ));
    assert!(cx.window_states.register(
        INSPECTOR_KIND,
        WindowStateValue::Inspector(InspectorState { component_search: String::new() }),
    ));

    let out = InspectorWindow::ui(
        &mut world,
        &reg,
        &catalog,
        &mut cx,
        HIERARCHY_KIND,
        INSPECTOR_KIND,
        InspectorEvent::EntrySelected(TRANSFORM_KEY),
    );
    assert!(matches!(out, Ok(InspectorOutcome::Added(TRANSFORM_KEY))));
    assert_eq!(world.component_count(7), 1);
    let stored = world.get_component(7, TRANSFORM_KEY).unwrap();
    assert_eq!(stored.bits, 11);
}

#[test]
fn inspector_window_requires_the_hierarchy_window() {
    const HIERARCHY_KIND: u64 = 1;
    const INSPECTOR_KIND: u64 = 2;
    let reg = demo_registry();
    let catalog = InspectorWindow::app_setup(&reg);
    let mut world = WorldModel::new();
    let mut cx = EditorWindowContext::new();
    // the companion hierarchy window was never registered
    assert!(cx.window_states.register(
        INSPECTOR_KIND,
        WindowStateValue::Inspector(InspectorState { component_search: String::new() }),
    ));
    let out = InspectorWindow::ui(
        &mut world,
        &reg,
        &catalog,
        &mut cx,
        HIERARCHY_KIND,
        INSPECTOR_KIND,
        InspectorEvent::Idle,
    );
    assert!(matches!(out, Err(InspectorError::UnregisteredWindowKind)));
}

#[test]
fn sorting_is_case_sensitive_as_authored() {
    // ascii uppercase sorts before lowercase
    let mut reg = ReflectRegistry::new();
    assert!(reg.register_type(descriptor("demo::x::alpha", 1, true, 0)));
    assert!(reg.register_type(descriptor("demo::y::Beta", 2, true, 0)));
    let catalog = Catalog::scan(&reg);
    assert_eq!(catalog.entry_at(0).display_name.as_str(), "Beta");
    assert_eq!(catalog.entry_at(1).display_name.as_str(), "alpha");
}

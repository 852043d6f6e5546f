use editor_core::editor::EditorInternalState;
use editor_core::editor::WindowPos;
use editor_core::editor_window::EditorWindowContext;
use editor_core::window_state::HierarchyState;
use editor_core::window_state::InspectorState;
use editor_core::window_state::WindowStateRegistry;
use editor_core::window_state::WindowStateValue;

const INSPECTOR_KIND: u64 = 1;
const HIERARCHY_KIND: u64 = 2;

fn inspector_state(search: &str) -> WindowStateValue {
    WindowStateValue::Inspector(InspectorState { component_search: String::from(search) })
}

fn hierarchy_state(selected: Option<u64>) -> WindowStateValue {
    WindowStateValue::Hierarchy(HierarchyState { selected })
}

#[test]
fn get_after_register_returns_default_value() {
    let mut reg = WindowStateRegistry::new();
    assert!(reg.register(INSPECTOR_KIND, inspector_state("")));
    let got = reg.state(INSPECTOR_KIND).expect("registered kind must resolve");
    let narrowed = got.as_inspector().expect("inspector kind holds inspector state");
    assert_eq!(narrowed.component_search.as_str(), "");
}

#[test]
fn register_same_kind_twice_is_rejected() {
    let mut reg = WindowStateRegistry::new();
    assert!(reg.register(INSPECTOR_KIND, inspector_state("first")));
    assert!(!reg.register(INSPECTOR_KIND, inspector_state("second")));
    let got = reg.state(INSPECTOR_KIND).unwrap().as_inspector().unwrap();
    assert_eq!(got.component_search.as_str(), "first");
}

#[test]
fn unregistered_kind_resolves_to_nothing() {
    let reg = WindowStateRegistry::new();
    assert!(reg.state(INSPECTOR_KIND).is_none());
}

#[test]
fn narrowing_to_the_wrong_shape_is_checked() {
    let mut reg = WindowStateRegistry::new();
    assert!(reg.register(HIERARCHY_KIND, hierarchy_state(None)));
    let got = reg.state(HIERARCHY_KIND).unwrap();
    assert!(got.as_inspector().is_none());
    assert!(got.as_hierarchy().is_some());
}

#[test]
fn set_state_keeps_the_registered_shape() {
    let mut reg = WindowStateRegistry::new();
    assert!(reg.register(INSPECTOR_KIND, inspector_state("abc")));
    // a write of the other shape is rejected
    assert!(!reg.set_state(INSPECTOR_KIND, hierarchy_state(None)));
    // a write of the registered shape lands
    assert!(reg.set_state(INSPECTOR_KIND, inspector_state("xyz")));
    let got = reg.state(INSPECTOR_KIND).unwrap().as_inspector().unwrap();
    assert_eq!(got.component_search.as_str(), "xyz");
    // a write for an unregistered kind is rejected
    assert!(!reg.set_state(HIERARCHY_KIND, hierarchy_state(None)));
}

#[test]
fn open_yields_distinct_increasing_ids() {
    let mut st = EditorInternalState::new();
    let a = st.open_floating_window(7, None, None);
    let b = st.open_floating_window(7, None, None);
    let c = st.open_floating_window(9, Some(3), None);
    assert_eq!(a, 0);
    assert_eq!(b, 1);
    assert_eq!(c, 2);
}

#[test]
fn close_removes_exactly_that_record_and_is_idempotent() {
    let mut st = EditorInternalState::new();
    let a = st.open_floating_window(7, None, None);
    let b = st.open_floating_window(8, None, None);
    st.close_floating_window(a);
    // closing an absent id is a no-op
    st.close_floating_window(a);
    st.close_floating_window(42);
    // the other window is untouched; a new open never reuses the id
    let c = st.open_floating_window(7, None, None);
    assert_eq!(b, 1);
    assert_eq!(c, 2);
}

#[test]
fn close_of_first_window_leaves_the_second() {
    // open(kindA) then open(kindB), close the first: only {id: 1, kind: B}
    let kind_a: u64 = 10;
    let kind_b: u64 = 20;
    let mut cx = EditorWindowContext::new();
    let first = cx.open_floating_window(kind_a);
    let second = cx.open_floating_window(kind_b);
    assert_eq!(first, 0);
    assert_eq!(second, 1);
    cx.internal_state.close_floating_window(first);
    assert_eq!(cx.internal_state.floating_window_count(), 1);
    let left = cx.internal_state.floating_window_at(0);
    assert_eq!(left.id, 1);
    assert_eq!(left.kind, kind_b);
    // the next id proves nothing was recycled
    let third = cx.open_floating_window(kind_a);
    assert_eq!(third, 2);
}

#[test]
fn menu_click_opens_a_floating_window() {
    let mut cx = EditorWindowContext::new();
    assert_eq!(cx.menu_ui(5, false), None);
    assert_eq!(cx.menu_ui(5, true), Some(0));
    assert_eq!(cx.menu_ui(5, true), Some(1));
}

#[test]
fn floating_window_records_keep_origin_and_position() {
    let mut st = EditorInternalState::new();
    let id = st.open_floating_window(3, Some(9), Some(WindowPos { x: 40, y: -8 }));
    assert_eq!(st.floating_window_count(), 1);
    let w = st.floating_window_at(0);
    assert_eq!(w.id, id);
    assert_eq!(w.kind, 3);
    assert_eq!(w.original_panel, Some(9));
    assert!(matches!(w.initial_position, Some(WindowPos { x: 40, y: -8 })));
}

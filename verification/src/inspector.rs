use vstd::prelude::*;

use crate::catalog::Catalog;
use crate::catalog::CatalogEntry;
use crate::catalog::entries_view;
use crate::catalog::entry_source;
use crate::catalog::first_key_for;
use crate::catalog::has_source;
use crate::catalog::matches_model;
use crate::lookup::find_by;
use crate::lookup::lemma_find_some_member;
use crate::lookup::unique_keys;
use crate::reflect::ReflectRegistry;
use crate::reflect::StructuralValue;
use crate::reflect::TypeDescriptor;
use crate::reflect::WorldModel;
use crate::reflect::slot_key;
use crate::text::short_name_of;
use crate::window_state::InspectorState;
use crate::window_state::WindowStateValue;
use crate::editor_window::EditorWindowContext;

verus! {

/// What can go wrong inside the inspector engine.
#[derive(PartialEq, Eq, Structural, Clone, Copy, Debug)]
pub enum InspectorError {
    /// State was asked for a window kind that was never registered.
    UnregisteredWindowKind,
    /// A catalog entry's type key no longer resolves in the registry.
    StaleTypeKey,
}

/// The interaction the UI surface captured this frame, handed in as a value.
pub enum InspectorEvent {
    /// No interaction: the list is (re-)rendered from the current filter.
    Idle,
    /// The search field changed to this text.
    SearchChanged(String),
    /// The entry with this type key was clicked.
    EntrySelected(u64),
}

/// What the engine asks the UI surface to render after a frame.
pub enum InspectorOutcome {
    /// No entity is selected: an informational label, nothing else happens.
    EmptySelection,
    /// The catalog entries matching the current filter, in catalog order.
    Listed(Vec<CatalogEntry>),
    /// A default-valued component of this type was attached; the search
    /// filter was cleared.
    Added(u64),
    /// This type key went stale: the single operation was aborted and
    /// reported, nothing was changed.
    Stale(u64),
}

/// The instance a descriptor's default constructor yields.
pub open spec fn default_value_of(d: TypeDescriptor) -> StructuralValue {
    StructuralValue { type_key: d.type_key, bits: d.default_bits }
}

/// `w1` is `w0` with `v` attached to entity `e` and nothing else touched:
/// every other entity keeps its record, `e` keeps its name and its other
/// components, and `e` carries `v` exactly once.
pub open spec fn world_after_add(w0: WorldModel, w1: WorldModel, e: u64, v: StructuralValue) -> bool {
    &&& w1.wf()
    &&& forall|e2: u64| e2 != e ==> w1.record_of(e2) == w0.record_of(e2)
    &&& forall|e2: u64| w1.has_entity_spec(e2) == w0.has_entity_spec(e2)
    &&& w1.name_of(e) == w0.name_of(e)
    &&& w1.component_of(e, v.type_key) == Some(v)
    &&& forall|k: u64| k != v.type_key ==> w1.component_of(e, k) == w0.component_of(e, k)
    &&& w1.component_count_of(e) == if w0.component_of(e, v.type_key) is Some {
        w0.component_count_of(e)
    } else {
        w0.component_count_of(e) + 1
    }
}

/// Resolves `type_key` against the registry, constructs a default-valued
/// instance of the resolved type through its descriptor, and attaches it to
/// `entity`. When the key no longer resolves — the registry changed since the
/// catalog scan — the single operation is aborted: the store is untouched and
/// `StaleTypeKey` is reported, never a crash.
pub fn add_default_component(
    world: &mut WorldModel,
    reg: &ReflectRegistry,
    entity: u64,
    type_key: u64,
) -> (r: Result<StructuralValue, InspectorError>)
    requires
        old(world).wf(),
        reg.wf(),
        old(world).has_entity_spec(entity),
    ensures
        final(world).wf(),
        r is Ok <==> reg.resolve_spec(type_key) is Some,
        r matches Ok(v) ==> v == default_value_of(reg.resolve_spec(type_key)->Some_0)
            && v.type_key == type_key && world_after_add(*old(world), *final(world), entity, v),
        r matches Err(e) ==> e == InspectorError::StaleTypeKey && *final(world) == *old(world),
{
    match reg.resolve(type_key) {
        Some(desc) => {
            proof {
                lemma_find_some_member(reg.types_seq(), crate::reflect::desc_key(), type_key);
            }
            let value = desc.construct_default();
            world.attach(entity, value);
            Ok(value)
        },
        None => Err(InspectorError::StaleTypeKey),
    }
}

/// How many attached components carry type key `k`.
pub open spec fn count_key(cs: Seq<StructuralValue>, k: u64) -> nat
    decreases cs.len(),
{
    if cs.len() == 0 {
        0
    } else {
        (if cs[0].type_key == k {
            1nat
        } else {
            0nat
        }) + count_key(cs.drop_first(), k)
    }
}

/// Where no slot carries `k`, none is counted.
proof fn lemma_count_key_zero(cs: Seq<StructuralValue>, k: u64)
    requires
        forall|i: int| 0 <= i < cs.len() ==> (#[trigger] cs[i]).type_key != k,
    ensures
        count_key(cs, k) == 0,
    decreases cs.len(),
{
    if cs.len() > 0 {
        assert forall|i: int| 0 <= i < cs.drop_first().len() implies (
        #[trigger] cs.drop_first()[i]).type_key != k by {
            assert(cs.drop_first()[i] == cs[i + 1]);
        }
        lemma_count_key_zero(cs.drop_first(), k);
    }
}

/// With pairwise distinct slot keys, a key that resolves is counted exactly
/// once.
proof fn lemma_unique_count_one(cs: Seq<StructuralValue>, k: u64)
    requires
        unique_keys(cs, slot_key()),
        find_by(cs, slot_key(), k) is Some,
    ensures
        count_key(cs, k) == 1,
    decreases cs.len(),
{
    assert forall|a: int, b: int|
        0 <= a < b < cs.drop_first().len() implies slot_key()(
        #[trigger] cs.drop_first()[a]) != slot_key()(#[trigger] cs.drop_first()[b]) by {
        assert(cs.drop_first()[a] == cs[a + 1]);
        assert(cs.drop_first()[b] == cs[b + 1]);
    }
    if cs[0].type_key == k {
        assert forall|i: int| 0 <= i < cs.drop_first().len() implies (
        #[trigger] cs.drop_first()[i]).type_key != k by {
            assert(cs.drop_first()[i] == cs[i + 1]);
        }
        lemma_count_key_zero(cs.drop_first(), k);
    } else {
        lemma_unique_count_one(cs.drop_first(), k);
    }
}

/// Membership is idempotent, never duplicated: whenever an entity carries a
/// component of type `k` in a well-formed store — as it does right after
/// `add_default_component` succeeds, however often it was invoked for the
/// same pair — exactly one of its slots carries `k`.
pub proof fn lemma_component_attached_exactly_once(w: WorldModel, e: u64, k: u64)
    requires
        w.wf(),
        w.component_of(e, k) is Some,
    ensures
        w.record_of(e) matches Some(rec) && count_key(rec.comps(), k) == 1,
{
    let rec = w.record_of(e)->Some_0;
    lemma_find_some_member(w.entities_seq(), crate::reflect::entity_key(), e);
    lemma_unique_count_one(rec.comps(), k);
}

/// One frame of the inspector window's logic, interactions in and render
/// requests out. With no entity selected nothing happens. Otherwise the
/// catalog is filtered by the (possibly just-edited) search text, and a
/// clicked entry has a default-valued component of its type attached to the
/// selected entity — on success the search filter is cleared, on a stale key
/// the store is left untouched and the failure is reported.
pub fn inspector(
    world: &mut WorldModel,
    reg: &ReflectRegistry,
    catalog: &Catalog,
    inspected: Option<u64>,
    state: &mut InspectorState,
    event: InspectorEvent,
) -> (r: InspectorOutcome)
    requires
        old(world).wf(),
        reg.wf(),
        inspected matches Some(e) ==> old(world).has_entity_spec(e),
    ensures
        final(world).wf(),
        inspected is None ==> r == InspectorOutcome::EmptySelection && *final(world) == *old(world)
            && *final(state) == *old(state),
        inspected is Some ==> match event {
            InspectorEvent::Idle => {
                &&& *final(world) == *old(world)
                &&& *final(state) == *old(state)
                &&& (r matches InspectorOutcome::Listed(v) && entries_view(v@) == matches_model(
                    catalog.entries_seq(),
                    old(state).component_search@,
                ))
            },
            InspectorEvent::SearchChanged(s) => {
                &&& *final(world) == *old(world)
                &&& final(state).component_search@ == s@
                &&& (r matches InspectorOutcome::Listed(v) && entries_view(v@) == matches_model(
                    catalog.entries_seq(),
                    s@,
                ))
            },
            InspectorEvent::EntrySelected(k) => {
                if reg.resolve_spec(k) is Some {
                    &&& r == InspectorOutcome::Added(k)
                    &&& final(state).component_search@.len() == 0
                    &&& world_after_add(
                        *old(world),
                        *final(world),
                        inspected->Some_0,
                        default_value_of(reg.resolve_spec(k)->Some_0),
                    )
                } else {
                    &&& r == InspectorOutcome::Stale(k)
                    &&& *final(world) == *old(world)
                    &&& *final(state) == *old(state)
                }
            },
        },
{
    let entity = match inspected {
        Some(e) => e,
        None => {
            return InspectorOutcome::EmptySelection;
        },
    };
    match event {
        InspectorEvent::Idle => {
            InspectorOutcome::Listed(catalog.list_matches(state.component_search.as_str()))
        },
        InspectorEvent::SearchChanged(s) => {
            state.component_search = s;
            InspectorOutcome::Listed(catalog.list_matches(state.component_search.as_str()))
        },
        InspectorEvent::EntrySelected(k) => {
            match add_default_component(world, reg, entity, k) {
                Ok(v) => {
                    proof {
                        assert(v == default_value_of(reg.resolve_spec(k)->Some_0));
                    }
                    state.component_search = String::new();
                    InspectorOutcome::Added(k)
                },
                Err(_) => InspectorOutcome::Stale(k),
            }
        },
    }
}

/// The entity the hierarchy window's registered state has selected, if that
/// state is registered at all.
pub open spec fn hierarchy_selection(cx: EditorWindowContext, kind: u64) -> Option<u64> {
    match cx.window_states.state_of(kind) {
        Some(WindowStateValue::Hierarchy(h)) => h.selected,
        _ => None,
    }
}

/// The search filter the inspector's registered state holds; empty where that
/// state is not registered.
pub open spec fn inspector_search(cx: EditorWindowContext, kind: u64) -> Seq<char> {
    match cx.window_states.state_of(kind) {
        Some(WindowStateValue::Inspector(s)) => s.component_search@,
        _ => Seq::empty(),
    }
}

/// Both window states the inspector window depends on are registered under
/// their own shapes: the hierarchy window's (an ordering dependency of this
/// window) and the inspector's own.
pub open spec fn states_available(
    cx: EditorWindowContext,
    hierarchy_kind: u64,
    inspector_kind: u64,
) -> bool {
    &&& cx.window_states.state_of(hierarchy_kind) matches Some(WindowStateValue::Hierarchy(_))
    &&& cx.window_states.state_of(inspector_kind) matches Some(WindowStateValue::Inspector(_))
}

/// The inspector window module: its state is the search filter; its catalog
/// is built once at setup; its frame logic reads the hierarchy window's
/// selection.
pub struct InspectorWindow;

impl InspectorWindow {
    /// Builds the component catalog from the reflection registry, exactly
    /// once at setup, after the registry is fully populated: the name-sorted
    /// catalog of every type exposing the component capability, first
    /// registration winning a contested display name.
    pub fn app_setup(reg: &ReflectRegistry) -> (r: Catalog)
        requires
            reg.wf(),
        ensures
            r.wf(),
            forall|a: int|
                0 <= a < r.entries_seq().len() ==> Some(
                    (#[trigger] r.entries_seq()[a]).type_key,
                ) == first_key_for(reg.types_seq(), r.entries_seq()[a].display_name@),
            forall|a: int|
                0 <= a < r.entries_seq().len() ==> has_source(
                    reg.types_seq(),
                    #[trigger] r.entries_seq()[a],
                ),
            forall|j: int|
                0 <= j < reg.types_seq().len() && (#[trigger] reg.types_seq()[j]).has_component
                    ==> r.has_name(short_name_of(reg.types_seq()[j].type_path@)),
    {
        Catalog::scan(reg)
    }

    /// One frame of the inspector window, run against the window-state
    /// context: the hierarchy window's selection is read (its registration is
    /// an ordering dependency of this window, reported as
    /// `UnregisteredWindowKind` rather than assumed), the inspector's own
    /// state is read, the frame logic runs, and the state is written back.
    pub fn ui(
        world: &mut WorldModel,
        reg: &ReflectRegistry,
        catalog: &Catalog,
        cx: &mut EditorWindowContext,
        hierarchy_kind: u64,
        inspector_kind: u64,
        event: InspectorEvent,
    ) -> (r: Result<InspectorOutcome, InspectorError>)
        requires
            old(world).wf(),
            reg.wf(),
            old(cx).wf(),
            hierarchy_selection(*old(cx), hierarchy_kind) matches Some(e) ==> old(
                world,
            ).has_entity_spec(e),
        ensures
            final(world).wf(),
            final(cx).wf(),
            final(cx).internal_state == old(cx).internal_state,
            (r is Ok) == states_available(*old(cx), hierarchy_kind, inspector_kind),
            r matches Err(e) ==> e == InspectorError::UnregisteredWindowKind && *final(world)
                == *old(world) && *final(cx) == *old(cx),
            forall|k: u64|
                k != inspector_kind ==> final(cx).window_states.state_of(k) == old(
                    cx,
                ).window_states.state_of(k),
            r matches Ok(out) ==> ({
                let sel = hierarchy_selection(*old(cx), hierarchy_kind);
                let search0 = inspector_search(*old(cx), inspector_kind);
                let search1 = inspector_search(*final(cx), inspector_kind);
                if sel is None {
                    out == InspectorOutcome::EmptySelection && *final(world) == *old(world)
                        && search1 == search0
                } else {
                    match event {
                        InspectorEvent::Idle => {
                            &&& *final(world) == *old(world)
                            &&& search1 == search0
                            &&& (out matches InspectorOutcome::Listed(v) && entries_view(v@)
                                == matches_model(catalog.entries_seq(), search0))
                        },
                        InspectorEvent::SearchChanged(s) => {
                            &&& *final(world) == *old(world)
                            &&& search1 == s@
                            &&& (out matches InspectorOutcome::Listed(v) && entries_view(v@)
                                == matches_model(catalog.entries_seq(), s@))
                        },
                        InspectorEvent::EntrySelected(k) => {
                            if reg.resolve_spec(k) is Some {
                                &&& out == InspectorOutcome::Added(k)
                                &&& search1.len() == 0
                                &&& world_after_add(
                                    *old(world),
                                    *final(world),
                                    sel->Some_0,
                                    default_value_of(reg.resolve_spec(k)->Some_0),
                                )
                            } else {
                                &&& out == InspectorOutcome::Stale(k)
                                &&& *final(world) == *old(world)
                                &&& search1 == search0
                            }
                        },
                    }
                }
            }),
    {
        let selected: Option<u64> = match cx.state(hierarchy_kind) {
            Some(v) => match v.as_hierarchy() {
                Some(h) => h.selected,
                None => {
                    return Err(InspectorError::UnregisteredWindowKind);
                },
            },
            None => {
                return Err(InspectorError::UnregisteredWindowKind);
            },
        };
        let mut st: InspectorState = match cx.state(inspector_kind) {
            Some(v) => match v.as_inspector() {
                Some(s) => InspectorState { component_search: s.component_search.clone() },
                None => {
                    return Err(InspectorError::UnregisteredWindowKind);
                },
            },
            None => {
                return Err(InspectorError::UnregisteredWindowKind);
            },
        };
        let out = inspector(world, reg, catalog, selected, &mut st, event);
        let wrote = cx.state_mut(inspector_kind, WindowStateValue::Inspector(st));
        proof {
            assert(wrote);
        }
        Ok(out)
    }
}

} // verus!

use vstd::prelude::*;

use crate::editor::EditorInternalState;
use crate::editor::open_model;
use crate::window_state::WindowStateRegistry;
use crate::window_state::WindowStateValue;

verus! {

/// The per-call facade handed to a window module: its own (and, by
/// capability, other windows') registered state, and the floating-window
/// manager. Constructed once at startup and threaded through every call.
pub struct EditorWindowContext {
    pub window_states: WindowStateRegistry,
    pub internal_state: EditorInternalState,
}

impl EditorWindowContext {
    /// Both owned parts are well-formed.
    pub open spec fn wf(self) -> bool {
        self.window_states.wf() && self.internal_state.wf()
    }

    pub fn new() -> (r: Self)
        ensures
            r.wf(),
            forall|k: u64| !r.window_states.registered(k),
            r.internal_state.windows() =~= Seq::<crate::editor::FloatingWindow>::empty(),
            r.internal_state.next_id() == 0,
    {
        EditorWindowContext {
            window_states: WindowStateRegistry::new(),
            internal_state: EditorInternalState::new(),
        }
    }

    /// The state registered for `kind`, to be narrowed by the caller; nothing
    /// if `kind` was never registered.
    pub fn state(&self, kind: u64) -> (r: Option<&WindowStateValue>)
        ensures
            match r {
                Some(v) => self.window_states.state_of(kind) == Some(*v),
                None => !self.window_states.registered(kind),
            },
    {
        self.window_states.state(kind)
    }

    /// Writes `kind`'s state. The write is checked: it succeeds exactly when
    /// `kind` is registered and the new record keeps the registered shape.
    pub fn state_mut(&mut self, kind: u64, state: WindowStateValue) -> (ok: bool)
        requires
            old(self).wf(),
        ensures
            final(self).wf(),
            final(self).internal_state == old(self).internal_state,
            ok == (old(self).window_states.state_of(kind) matches Some(v) && v.same_shape(state)),
            ok ==> final(self).window_states.state_of(kind) == Some(state),
            forall|k: u64|
                k != kind ==> final(self).window_states.state_of(k) == old(
                    self,
                ).window_states.state_of(k),
            !ok ==> *final(self) == *old(self),
    {
        self.window_states.set_state(kind, state)
    }

    /// Requests a new floating window of `kind`, undocked from no panel and
    /// with no initial position; yields the fresh id.
    pub fn open_floating_window(&mut self, kind: u64) -> (id: u64)
        requires
            old(self).wf(),
            old(self).internal_state.next_id() < u64::MAX,
        ensures
            final(self).wf(),
            final(self).window_states == old(self).window_states,
            (final(self).internal_state.windows(), final(self).internal_state.next_id(), id)
                == open_model(
                old(self).internal_state.windows(),
                old(self).internal_state.next_id(),
                kind,
                None,
                None,
            ),
            id == old(self).internal_state.next_id(),
    {
        self.internal_state.open_floating_window(kind, None, None)
    }

    /// One frame of a window's menu-bar entry: when the entry was clicked,
    /// a floating window of that kind opens and the fresh id is yielded;
    /// otherwise nothing changes.
    pub fn menu_ui(&mut self, kind: u64, clicked: bool) -> (opened: Option<u64>)
        requires
            old(self).wf(),
            old(self).internal_state.next_id() < u64::MAX,
        ensures
            final(self).wf(),
            final(self).window_states == old(self).window_states,
            !clicked ==> opened is None && *final(self) == *old(self),
            clicked ==> opened == Some(old(self).internal_state.next_id()) && (
            final(self).internal_state.windows(),
            final(self).internal_state.next_id(),
            opened->Some_0,
            ) == open_model(
                old(self).internal_state.windows(),
                old(self).internal_state.next_id(),
                kind,
                None,
                None,
            ),
    {
        if clicked {
            Some(self.open_floating_window(kind))
        } else {
            None
        }
    }
}

} // verus!

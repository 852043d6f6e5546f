use vstd::prelude::*;

verus! {

/// Per-window state of the inspector window: the search filter typed into the
/// add-component menu. It is keyed by window kind, not by floating-window
/// instance, so it persists across undock/close cycles.
pub struct InspectorState {
    pub component_search: String,
}

/// Per-window state of the hierarchy window: which entity, if any, the user
/// has selected for inspection.
pub struct HierarchyState {
    pub selected: Option<u64>,
}

/// A type-erased window-state record: one variant per state shape the library
/// ships. Narrowing back to a concrete shape is checked, never assumed.
pub enum WindowStateValue {
    Inspector(InspectorState),
    Hierarchy(HierarchyState),
}

impl WindowStateValue {
    /// Both records hold the same state shape.
    pub open spec fn same_shape(self, other: WindowStateValue) -> bool {
        match (self, other) {
            (WindowStateValue::Inspector(_), WindowStateValue::Inspector(_)) => true,
            (WindowStateValue::Hierarchy(_), WindowStateValue::Hierarchy(_)) => true,
            _ => false,
        }
    }

    /// Checked narrowing to the inspector state: yields the contents exactly
    /// when the record holds that shape.
    pub fn as_inspector(&self) -> (r: Option<&InspectorState>)
        ensures
            match *self {
                WindowStateValue::Inspector(_) => r matches Some(s) && *self
                    == WindowStateValue::Inspector(*s),
                _ => r is None,
            },
    {
        match self {
            WindowStateValue::Inspector(s) => Some(s),
            _ => None,
        }
    }

    /// Checked narrowing to the hierarchy state.
    pub fn as_hierarchy(&self) -> (r: Option<&HierarchyState>)
        ensures
            match *self {
                WindowStateValue::Hierarchy(_) => r matches Some(s) && *self
                    == WindowStateValue::Hierarchy(*s),
                _ => r is None,
            },
    {
        match self {
            WindowStateValue::Hierarchy(s) => Some(s),
            _ => None,
        }
    }

    /// Runtime check of `same_shape`.
    pub fn shape_matches(&self, other: &WindowStateValue) -> (r: bool)
        ensures
            r == self.same_shape(*other),
    {
        match (self, other) {
            (WindowStateValue::Inspector(_), WindowStateValue::Inspector(_)) => true,
            (WindowStateValue::Hierarchy(_), WindowStateValue::Hierarchy(_)) => true,
            _ => false,
        }
    }
}

/// The state the registry maps `kind` to: the first entry carrying that kind,
/// or nothing when the kind was never registered.
pub open spec fn lookup_state(s: Seq<(u64, WindowStateValue)>, kind: u64) -> Option<
    WindowStateValue,
>
    decreases s.len(),
{
    if s.len() == 0 {
        None
    } else if s[0].0 == kind {
        Some(s[0].1)
    } else {
        lookup_state(s.drop_first(), kind)
    }
}

/// Owns one state record per registered window kind, for the process's
/// lifetime. Entries are never deleted; the set of kinds is closed once
/// registration (setup) is over.
pub struct WindowStateRegistry {
    entries: Vec<(u64, WindowStateValue)>,
}

impl WindowStateRegistry {
    /// The registered records, in registration order.
    pub closed spec fn entry_seq(self) -> Seq<(u64, WindowStateValue)> {
        self.entries@
    }

    /// The state held for `kind`, if any.
    pub open spec fn state_of(self, kind: u64) -> Option<WindowStateValue> {
        lookup_state(self.entry_seq(), kind)
    }

    /// `kind` has been registered.
    pub open spec fn registered(self, kind: u64) -> bool {
        self.state_of(kind) is Some
    }

    /// Well-formedness: each kind owns at most one record.
    pub open spec fn wf(self) -> bool {
        forall|i: int, j: int|
            0 <= i < j < self.entry_seq().len() ==> (#[trigger] self.entry_seq()[i]).0 != (
            #[trigger] self.entry_seq()[j]).0
    }

    pub fn new() -> (r: Self)
        ensures
            r.wf(),
            r.entry_seq() =~= Seq::<(u64, WindowStateValue)>::empty(),
            forall|k: u64| !r.registered(k),
    {
        let r = WindowStateRegistry { entries: Vec::new() };
        proof {
            assert forall|k: u64| !r.registered(k) by {
                assert(r.state_of(k) is None);
            }
        }
        r
    }

    /// Finds the position of `kind`'s record.
    fn position_of(&self, kind: u64) -> (r: Option<usize>)
        ensures
            match r {
                Some(i) => i < self.entry_seq().len() && self.entry_seq()[i as int].0 == kind
                    && self.state_of(kind) == Some(self.entry_seq()[i as int].1),
                None => !self.registered(kind),
            },
    {
        let n = self.entries.len();
        let mut i: usize = 0;
        while i < n
            invariant
                n == self.entry_seq().len(),
                0 <= i <= n,
                forall|j: int| 0 <= j < i ==> (#[trigger] self.entry_seq()[j]).0 != kind,
            decreases n - i,
        {
            if self.entries[i].0 == kind {
                proof {
                    lemma_lookup_found(self.entry_seq(), kind, i as int);
                }
                return Some(i);
            }
            i = i + 1;
        }
        proof {
            lemma_lookup_none(self.entry_seq(), kind);
        }
        None
    }

    /// Registers `kind` with the state its default factory produced. Exactly
    /// one record per kind may ever exist: a second registration of the same
    /// kind is rejected and changes nothing.
    pub fn register(&mut self, kind: u64, state: WindowStateValue) -> (ok: bool)
        requires
            old(self).wf(),
        ensures
            final(self).wf(),
            ok == !old(self).registered(kind),
            ok ==> final(self).entry_seq() == old(self).entry_seq().push((kind, state)),
            ok ==> final(self).state_of(kind) == Some(state),
            forall|k: u64| k != kind ==> final(self).state_of(k) == old(self).state_of(k),
            !ok ==> *final(self) == *old(self),
    {
        match self.position_of(kind) {
            Some(_) => false,
            None => {
                proof {
                    lemma_lookup_none_iff(self.entry_seq(), kind);
                }
                self.entries.push((kind, state));
                proof {
                    let s0 = old(self).entry_seq();
                    assert(self.entry_seq() == s0.push((kind, state)));
                    lemma_lookup_push(s0, kind, state, kind);
                    assert forall|k: u64| k != kind implies self.state_of(k) == old(
                        self,
                    ).state_of(k) by {
                        lemma_lookup_push(s0, kind, state, k);
                    }
                }
                true
            },
        }
    }

    /// The record registered for `kind`, narrowed by the caller afterwards;
    /// nothing if `kind` was never registered.
    pub fn state(&self, kind: u64) -> (r: Option<&WindowStateValue>)
        ensures
            match r {
                Some(v) => self.state_of(kind) == Some(*v),
                None => !self.registered(kind),
            },
    {
        match self.position_of(kind) {
            Some(i) => {
                let e = &self.entries[i];
                Some(&e.1)
            },
            None => None,
        }
    }

    /// Replaces the state held for `kind`. The write is checked twice over:
    /// the kind must be registered, and the new record must hold the same
    /// state shape the kind was registered with; otherwise nothing changes.
    pub fn set_state(&mut self, kind: u64, state: WindowStateValue) -> (ok: bool)
        requires
            old(self).wf(),
        ensures
            final(self).wf(),
            ok == (old(self).state_of(kind) matches Some(v) && v.same_shape(state)),
            ok ==> final(self).state_of(kind) == Some(state),
            forall|k: u64| k != kind ==> final(self).state_of(k) == old(self).state_of(k),
            !ok ==> *final(self) == *old(self),
    {
        match self.position_of(kind) {
            Some(i) => {
                let e = &self.entries[i];
                if e.1.shape_matches(&state) {
                    self.entries[i] = (kind, state);
                    proof {
                        let s0 = old(self).entry_seq();
                        assert(self.entry_seq() == s0.update(i as int, (kind, state)));
                        lemma_lookup_update(s0, kind, state, i as int);
                        assert forall|k: u64| k != kind implies self.state_of(k) == old(
                            self,
                        ).state_of(k) by {
                            lemma_lookup_update_other(s0, kind, state, i as int, k);
                        }
                    }
                    true
                } else {
                    false
                }
            },
            None => false,
        }
    }
}

/// For every registered kind, the state read immediately after registration
/// is the value its default factory produced: registering `kind` with `state`
/// makes `kind` resolve to exactly `state`, and disturbs no other kind.
pub proof fn lemma_state_after_register(
    r0: WindowStateRegistry,
    r1: WindowStateRegistry,
    kind: u64,
    state: WindowStateValue,
)
    requires
        !r0.registered(kind),
        r1.entry_seq() == r0.entry_seq().push((kind, state)),
    ensures
        r1.state_of(kind) == Some(state),
        forall|k: u64| k != kind ==> r1.state_of(k) == r0.state_of(k),
{
    lemma_lookup_push(r0.entry_seq(), kind, state, kind);
    assert forall|k: u64| k != kind implies r1.state_of(k) == r0.state_of(k) by {
        lemma_lookup_push(r0.entry_seq(), kind, state, k);
    }
}

/// A record at a position whose earlier positions all carry other kinds is
/// what the lookup returns.
proof fn lemma_lookup_found(s: Seq<(u64, WindowStateValue)>, kind: u64, i: int)
    requires
        0 <= i < s.len(),
        s[i].0 == kind,
        forall|j: int| 0 <= j < i ==> (#[trigger] s[j]).0 != kind,
    ensures
        lookup_state(s, kind) == Some(s[i].1),
    decreases i,
{
    if i > 0 {
        lemma_lookup_found(s.drop_first(), kind, i - 1);
    }
}

/// When no position carries `kind`, the lookup yields nothing.
proof fn lemma_lookup_none(s: Seq<(u64, WindowStateValue)>, kind: u64)
    requires
        forall|j: int| 0 <= j < s.len() ==> (#[trigger] s[j]).0 != kind,
    ensures
        lookup_state(s, kind) is None,
    decreases s.len(),
{
    if s.len() > 0 {
        lemma_lookup_none(s.drop_first(), kind);
    }
}

/// When the lookup yields nothing, no position carries `kind`.
proof fn lemma_lookup_none_iff(s: Seq<(u64, WindowStateValue)>, kind: u64)
    requires
        lookup_state(s, kind) is None,
    ensures
        forall|j: int| 0 <= j < s.len() ==> (#[trigger] s[j]).0 != kind,
    decreases s.len(),
{
    if s.len() > 0 {
        lemma_lookup_none_iff(s.drop_first(), kind);
        assert forall|j: int| 0 <= j < s.len() implies (#[trigger] s[j]).0 != kind by {
            if j > 0 {
                assert(s.drop_first()[j - 1] == s[j]);
            }
        }
    }
}

/// Appending a record for a kind the lookup does not know yet leaves every
/// other kind's answer alone and makes the new kind resolve to the record.
proof fn lemma_lookup_push(
    s: Seq<(u64, WindowStateValue)>,
    kind: u64,
    state: WindowStateValue,
    k: u64,
)
    requires
        lookup_state(s, kind) is None,
    ensures
        lookup_state(s.push((kind, state)), k) == if k == kind {
            Some(state)
        } else {
            lookup_state(s, k)
        },
    decreases s.len(),
{
    let t = s.push((kind, state));
    if s.len() == 0 {
        assert(t[0] == (kind, state));
        assert(t.drop_first() =~= Seq::<(u64, WindowStateValue)>::empty());
        assert(lookup_state(t.drop_first(), k) is None);
    } else {
        lemma_lookup_push(s.drop_first(), kind, state, k);
        assert(t[0] == s[0]);
        assert(t.drop_first() =~= s.drop_first().push((kind, state)));
        assert(lookup_state(t, k) == if t[0].0 == k {
            Some(t[0].1)
        } else {
            lookup_state(t.drop_first(), k)
        });
    }
}

/// Updating the position that holds `kind` makes `kind` resolve to the new
/// record.
proof fn lemma_lookup_update(
    s: Seq<(u64, WindowStateValue)>,
    kind: u64,
    state: WindowStateValue,
    i: int,
)
    requires
        0 <= i < s.len(),
        s[i].0 == kind,
        forall|a: int, b: int| 0 <= a < b < s.len() ==> (#[trigger] s[a]).0 != (#[trigger] s[b]).0,
    ensures
        lookup_state(s.update(i, (kind, state)), kind) == Some(state),
    decreases i,
{
    let t = s.update(i, (kind, state));
    if i == 0 {
        assert(t[0] == (kind, state));
    } else {
        assert(t.drop_first() =~= s.drop_first().update(i - 1, (kind, state)));
        assert(s[0].0 != kind);
        assert forall|a: int, b: int|
            0 <= a < b < s.drop_first().len() implies (#[trigger] s.drop_first()[a]).0 != (
        #[trigger] s.drop_first()[b]).0 by {
            assert(s.drop_first()[a] == s[a + 1]);
            assert(s.drop_first()[b] == s[b + 1]);
        }
        lemma_lookup_update(s.drop_first(), kind, state, i - 1);
    }
}

/// Updating the position that holds `kind` leaves every other kind's answer
/// alone.
proof fn lemma_lookup_update_other(
    s: Seq<(u64, WindowStateValue)>,
    kind: u64,
    state: WindowStateValue,
    i: int,
    k: u64,
)
    requires
        0 <= i < s.len(),
        s[i].0 == kind,
        k != kind,
    ensures
        lookup_state(s.update(i, (kind, state)), k) == lookup_state(s, k),
    decreases i,
{
    let t = s.update(i, (kind, state));
    if i == 0 {
        assert(t.drop_first() =~= s.drop_first());
    } else {
        assert(t[0] == s[0]);
        if s[0].0 != k {
            assert(t.drop_first() =~= s.drop_first().update(i - 1, (kind, state)));
            lemma_lookup_update_other(s.drop_first(), kind, state, i - 1, k);
        }
    }
}

} // verus!

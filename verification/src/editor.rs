use vstd::prelude::*;

verus! {

/// A 2D placement point for a floating window's initial position.
#[derive(PartialEq, Eq, Structural, Clone, Copy)]
pub struct WindowPos {
    pub x: i64,
    pub y: i64,
}

/// An undocked chrome instance of a window kind: it carries its own unique id,
/// the kind it was opened for, the panel it was undocked from (if any), and an
/// optional initial placement.
#[derive(PartialEq, Eq, Structural, Clone, Copy)]
pub struct FloatingWindow {
    pub id: u64,
    pub kind: u64,
    pub original_panel: Option<u64>,
    pub initial_position: Option<WindowPos>,
}

/// What `open` does to the abstract manager state `(windows, next id)`:
/// a record with the fresh id is appended and the counter advances.
/// The result is `(new windows, new next id, issued id)`.
pub open spec fn open_model(
    ws: Seq<FloatingWindow>,
    next: u64,
    kind: u64,
    original_panel: Option<u64>,
    initial_position: Option<WindowPos>,
) -> (Seq<FloatingWindow>, u64, u64)
    recommends
        next < u64::MAX,
{
    (
        ws.push(FloatingWindow { id: next, kind, original_panel, initial_position }),
        (next + 1) as u64,
        next,
    )
}

/// What `close` does to the window list: every record but those whose id
/// matches stays, in order.
pub open spec fn close_model(ws: Seq<FloatingWindow>, id: u64) -> Seq<FloatingWindow>
    decreases ws.len(),
{
    if ws.len() == 0 {
        Seq::empty()
    } else if ws.last().id == id {
        close_model(ws.drop_last(), id)
    } else {
        close_model(ws.drop_last(), id).push(ws.last())
    }
}

/// Tracks the currently undocked window instances and issues their ids.
/// Ids are never rewound and never reused: every id ever issued lies below
/// the counter, and a closed window's id stays retired forever.
pub struct EditorInternalState {
    next_floating_window_id: u64,
    floating_windows: Vec<FloatingWindow>,
}

impl EditorInternalState {
    /// The currently open floating windows, in order of opening.
    pub closed spec fn windows(self) -> Seq<FloatingWindow> {
        self.floating_windows@
    }

    /// The id the next `open` will issue.
    pub closed spec fn next_id(self) -> u64 {
        self.next_floating_window_id
    }

    /// Well-formedness: every open window's id was issued (lies below the
    /// counter), and ids strictly increase in opening order, so they are
    /// pairwise distinct.
    pub open spec fn wf(self) -> bool {
        &&& forall|i: int|
            0 <= i < self.windows().len() ==> (#[trigger] self.windows()[i]).id < self.next_id()
        &&& forall|i: int, j: int|
            0 <= i < j < self.windows().len() ==> self.windows()[i].id < self.windows()[j].id
    }

    /// Some open window carries this id.
    pub open spec fn has_window(self, id: u64) -> bool {
        exists|i: int| 0 <= i < self.windows().len() && (#[trigger] self.windows()[i]).id == id
    }

    pub fn new() -> (r: Self)
        ensures
            r.wf(),
            r.windows() =~= Seq::<FloatingWindow>::empty(),
            r.next_id() == 0,
    {
        EditorInternalState { next_floating_window_id: 0, floating_windows: Vec::new() }
    }

    /// How many floating windows are open.
    pub fn floating_window_count(&self) -> (n: usize)
        ensures
            n == self.windows().len(),
    {
        self.floating_windows.len()
    }

    /// The open floating window at a position, in opening order.
    pub fn floating_window_at(&self, i: usize) -> (w: &FloatingWindow)
        requires
            i < self.windows().len(),
        ensures
            *w == self.windows()[i as int],
    {
        &self.floating_windows[i]
    }

    /// Issues a fresh floating-window id. The counter is process-wide
    /// monotone: it is never rewound, so an issued id is never issued again.
    pub fn next_floating_window_id(&mut self) -> (id: u64)
        requires
            old(self).next_id() < u64::MAX,
        ensures
            id == old(self).next_id(),
            final(self).next_id() == old(self).next_id() + 1,
            final(self).windows() == old(self).windows(),
    {
        let id = self.next_floating_window_id;
        self.next_floating_window_id = self.next_floating_window_id + 1;
        id
    }

    /// Opens a floating window of `kind`: allocates a fresh id and appends the
    /// record. There is no bound on concurrently open instances of one kind.
    pub fn open_floating_window(
        &mut self,
        kind: u64,
        original_panel: Option<u64>,
        initial_position: Option<WindowPos>,
    ) -> (id: u64)
        requires
            old(self).wf(),
            old(self).next_id() < u64::MAX,
        ensures
            final(self).wf(),
            (final(self).windows(), final(self).next_id(), id) == open_model(
                old(self).windows(),
                old(self).next_id(),
                kind,
                original_panel,
                initial_position,
            ),
            id == old(self).next_id(),
            !old(self).has_window(id),
    {
        let id = self.next_floating_window_id();
        self.floating_windows.push(FloatingWindow { id, kind, original_panel, initial_position });
        id
    }

    /// Closes the floating window with the given id: removes exactly the
    /// record matching `id`, and is a no-op when no such record exists.
    /// The id is not recycled: the counter is untouched.
    pub fn close_floating_window(&mut self, id: u64)
        requires
            old(self).wf(),
        ensures
            final(self).wf(),
            final(self).windows() == close_model(old(self).windows(), id),
            final(self).next_id() == old(self).next_id(),
            !final(self).has_window(id),
    {
        let ghost all = self.floating_windows@;
        let mut kept: Vec<FloatingWindow> = Vec::new();
        let n = self.floating_windows.len();
        let mut i: usize = 0;
        while i < n
            invariant
                n == all.len(),
                0 <= i <= n,
                self.floating_windows@ == all,
                kept@ == close_model(all.take(i as int), id),
            decreases n - i,
        {
            proof {
                assert(all.take(i + 1).drop_last() =~= all.take(i as int));
                assert(all.take(i + 1).last() == all[i as int]);
            }
            let w = self.floating_windows[i];
            if w.id != id {
                kept.push(w);
            }
            i = i + 1;
        }
        proof {
            assert(all.take(n as int) =~= all);
        }
        self.floating_windows = kept;
        proof {
            lemma_close_model_members(all, id);
            lemma_close_model_keeps_wf(all, self.next_floating_window_id, id);
        }
    }
}

/// Every record that survives a close kept its place relative to the others,
/// carries an id other than the closed one, and stood in the original list.
pub proof fn lemma_close_model_members(ws: Seq<FloatingWindow>, id: u64)
    ensures
        forall|i: int|
            0 <= i < close_model(ws, id).len() ==> (#[trigger] close_model(ws, id)[i]).id != id,
        forall|i: int|
            0 <= i < close_model(ws, id).len() ==> exists|j: int|
                0 <= j < ws.len() && (#[trigger] close_model(ws, id)[i]) == #[trigger] ws[j],
    decreases ws.len(),
{
    if ws.len() > 0 {
        lemma_close_model_members(ws.drop_last(), id);
        let sub = close_model(ws.drop_last(), id);
        assert forall|i: int| 0 <= i < sub.len() implies exists|j: int|
            0 <= j < ws.len() && (#[trigger] sub[i]) == #[trigger] ws[j] by {
            let j = choose|j: int| 0 <= j < ws.drop_last().len() && sub[i] == ws.drop_last()[j];
            assert(ws.drop_last()[j] == ws[j]);
        }
        if ws.last().id != id {
            assert(close_model(ws, id) == sub.push(ws.last()));
            assert forall|i: int| 0 <= i < close_model(ws, id).len() implies exists|j: int|
                0 <= j < ws.len() && (#[trigger] close_model(ws, id)[i]) == #[trigger] ws[j] by {
                if i < sub.len() {
                    assert(close_model(ws, id)[i] == sub[i]);
                } else {
                    assert(close_model(ws, id)[i] == ws[ws.len() - 1]);
                }
            }
        }
    }
}

/// Closing keeps well-formedness: the survivors are a subsequence, so their
/// ids still strictly increase and stay below the counter.
proof fn lemma_close_model_keeps_wf(ws: Seq<FloatingWindow>, next: u64, id: u64)
    requires
        forall|i: int| 0 <= i < ws.len() ==> (#[trigger] ws[i]).id < next,
        forall|i: int, j: int| 0 <= i < j < ws.len() ==> ws[i].id < ws[j].id,
    ensures
        forall|i: int|
            0 <= i < close_model(ws, id).len() ==> (#[trigger] close_model(ws, id)[i]).id < next,
        forall|i: int, j: int|
            0 <= i < j < close_model(ws, id).len() ==> close_model(ws, id)[i].id < close_model(
                ws,
                id,
            )[j].id,
    decreases ws.len(),
{
    if ws.len() > 0 {
        lemma_close_model_keeps_wf(ws.drop_last(), next, id);
        lemma_close_model_members(ws.drop_last(), id);
        let sub = close_model(ws.drop_last(), id);
        if ws.last().id != id {
            let res = close_model(ws, id);
            assert(res == sub.push(ws.last()));
            assert forall|i: int| 0 <= i < res.len() implies (#[trigger] res[i]).id < next by {
                if i < sub.len() {
                    assert(res[i] == sub[i]);
                }
            }
            assert forall|i: int, j: int| 0 <= i < j < res.len() implies res[i].id < res[j].id by {
                if j < sub.len() {
                    assert(res[i] == sub[i] && res[j] == sub[j]);
                } else {
                    assert(res[j] == ws.last());
                    assert(res[i] == sub[i]);
                    let k = choose|k: int|
                        0 <= k < ws.drop_last().len() && sub[i] == ws.drop_last()[k];
                    assert(ws[k].id < ws[ws.len() - 1].id);
                }
            }
        }
    }
}

/// Closing an id that no open window carries is a no-op.
pub proof fn lemma_close_absent_is_noop(ws: Seq<FloatingWindow>, id: u64)
    requires
        forall|i: int| 0 <= i < ws.len() ==> (#[trigger] ws[i]).id != id,
    ensures
        close_model(ws, id) == ws,
    decreases ws.len(),
{
    if ws.len() > 0 {
        lemma_close_absent_is_noop(ws.drop_last(), id);
        assert(close_model(ws, id) =~= ws);
    }
}

/// A record survives a close exactly when it was open before and its id is
/// not the closed one: `close` removes exactly the matching record.
pub proof fn lemma_close_removes_exactly(ws: Seq<FloatingWindow>, id: u64, w: FloatingWindow)
    ensures
        close_model(ws, id).contains(w) <==> (ws.contains(w) && w.id != id),
    decreases ws.len(),
{
    lemma_close_model_members(ws, id);
    if ws.len() > 0 {
        lemma_close_removes_exactly(ws.drop_last(), id, w);
        let sub = close_model(ws.drop_last(), id);
        assert(ws.drop_last().contains(w) ==> ws.contains(w));
        if close_model(ws, id).contains(w) {
            let i = choose|i: int|
                0 <= i < close_model(ws, id).len() && close_model(ws, id)[i] == w;
            if ws.last().id != id {
                assert(close_model(ws, id) == sub.push(ws.last()));
                if i < sub.len() {
                    assert(sub[i] == w);
                    assert(sub.contains(w));
                } else {
                    assert(w == ws.last());
                    assert(ws[ws.len() - 1] == w);
                }
            }
        }
        if ws.contains(w) && w.id != id {
            let i = choose|i: int| 0 <= i < ws.len() && ws[i] == w;
            if i < ws.len() - 1 {
                assert(ws.drop_last()[i] == w);
                assert(ws.drop_last().contains(w));
                let j = choose|j: int| 0 <= j < sub.len() && sub[j] == w;
                if ws.last().id != id {
                    assert(close_model(ws, id)[j] == w);
                } else {
                    assert(close_model(ws, id)[j] == w);
                }
            } else {
                assert(w == ws.last());
                assert(close_model(ws, id) == sub.push(ws.last()));
                assert(close_model(ws, id).last() == w);
            }
        }
    }
}

/// Two consecutive opens issue distinct, strictly increasing ids, and ids
/// never collide with one already issued: `open` invoked repeatedly yields
/// pairwise distinct, strictly increasing ids.
pub proof fn lemma_open_ids_strictly_increase(
    ws: Seq<FloatingWindow>,
    next: u64,
    kind1: u64,
    panel1: Option<u64>,
    pos1: Option<WindowPos>,
    kind2: u64,
    panel2: Option<u64>,
    pos2: Option<WindowPos>,
)
    requires
        next + 1 < u64::MAX,
    ensures
        ({
            let (ws1, next1, id1) = open_model(ws, next, kind1, panel1, pos1);
            let (ws2, next2, id2) = open_model(ws1, next1, kind2, panel2, pos2);
            &&& id1 < id2
            &&& ws2[ws2.len() - 2].id == id1
            &&& ws2[ws2.len() - 1].id == id2
            &&& ws2.len() == ws.len() + 2
        }),
{
}

} // verus!

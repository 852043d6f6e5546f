use vstd::prelude::*;

use crate::reflect::ReflectRegistry;
use crate::reflect::TypeDescriptor;
use crate::text::contains_seq;
use crate::text::lemma_contains_empty;
use crate::text::lex_lt;
use crate::text::lower_of;
use crate::text::lowercase;
use crate::text::short_name_of;
use crate::text::short_display_name;
use crate::text::str_contains_sub;
use crate::text::str_lex_lt;

verus! {

/// One catalog entry: the display name of a reflected type that exposes the
/// attachable-as-component capability, and the stable key referencing it.
pub struct CatalogEntry {
    pub display_name: String,
    pub type_key: u64,
}

impl CatalogEntry {
    /// A copy of this entry with the same name and key.
    pub fn duplicate(&self) -> (r: CatalogEntry)
        ensures
            r.display_name@ == self.display_name@,
            r.type_key == self.type_key,
    {
        CatalogEntry { display_name: self.display_name.clone(), type_key: self.type_key }
    }
}

/// The pair a catalog entry denotes: its display name and its type key.
pub open spec fn entry_view(e: CatalogEntry) -> (Seq<char>, u64) {
    (e.display_name@, e.type_key)
}

/// The denotation of a whole entry list.
pub open spec fn entries_view(s: Seq<CatalogEntry>) -> Seq<(Seq<char>, u64)> {
    s.map_values(|e: CatalogEntry| entry_view(e))
}

/// Display names strictly ascend through the list.
pub open spec fn sorted_names(s: Seq<CatalogEntry>) -> bool {
    forall|a: int, b: int|
        0 <= a < b < s.len() ==> lex_lt(
            (#[trigger] s[a]).display_name@,
            (#[trigger] s[b]).display_name@,
        )
}

/// The key of the first registry descriptor that exposes the component
/// capability under display name `n`, if any: the entry a scan keeps for `n`.
pub open spec fn first_key_for(s: Seq<TypeDescriptor>, n: Seq<char>) -> Option<u64>
    decreases s.len(),
{
    if s.len() == 0 {
        None
    } else if s[0].has_component && short_name_of(s[0].type_path@) == n {
        Some(s[0].type_key)
    } else {
        first_key_for(s.drop_first(), n)
    }
}

/// Descriptor `s[j]` is where catalog entry `e` comes from.
pub open spec fn entry_source(s: Seq<TypeDescriptor>, e: CatalogEntry, j: int) -> bool {
    &&& 0 <= j < s.len()
    &&& s[j].has_component
    &&& short_name_of(s[j].type_path@) == e.display_name@
    &&& s[j].type_key == e.type_key
}

/// Some registry descriptor is where catalog entry `e` comes from.
pub open spec fn has_source(s: Seq<TypeDescriptor>, e: CatalogEntry) -> bool {
    exists|j: int| entry_source(s, e, j)
}

/// A name matches a filter when the lowercase form of the name contains the
/// lowercase form of the filter.
pub open spec fn name_matches(n: Seq<char>, f: Seq<char>) -> bool {
    contains_seq(lower_of(n), lower_of(f))
}

/// The denotations of the catalog entries whose names match the filter, in
/// catalog order.
pub open spec fn matches_model(s: Seq<CatalogEntry>, f: Seq<char>) -> Seq<(Seq<char>, u64)>
    decreases s.len(),
{
    if s.len() == 0 {
        Seq::empty()
    } else if name_matches(s.last().display_name@, f) {
        matches_model(s.drop_last(), f).push(entry_view(s.last()))
    } else {
        matches_model(s.drop_last(), f)
    }
}

/// Appending a descriptor answers a name's first key only where the list so
/// far had none.
proof fn lemma_first_key_push(s: Seq<TypeDescriptor>, d: TypeDescriptor, n: Seq<char>)
    ensures
        first_key_for(s.push(d), n) == if first_key_for(s, n) is Some {
            first_key_for(s, n)
        } else if d.has_component && short_name_of(d.type_path@) == n {
            Some(d.type_key)
        } else {
            None
        },
    decreases s.len(),
{
    let t = s.push(d);
    if s.len() == 0 {
        assert(t[0] == d);
        assert(t.drop_first() =~= Seq::<TypeDescriptor>::empty());
    } else {
        lemma_first_key_push(s.drop_first(), d, n);
        assert(t[0] == s[0]);
        assert(t.drop_first() =~= s.drop_first().push(d));
        assert(first_key_for(t, n) == if t[0].has_component && short_name_of(t[0].type_path@)
            == n {
            Some(t[0].type_key)
        } else {
            first_key_for(t.drop_first(), n)
        });
    }
}

/// A first key comes from a capable descriptor bearing the name.
proof fn lemma_first_key_member(s: Seq<TypeDescriptor>, n: Seq<char>)
    requires
        first_key_for(s, n) is Some,
    ensures
        exists|j: int|
            0 <= j < s.len() && (#[trigger] s[j]).has_component && short_name_of(s[j].type_path@)
                == n && s[j].type_key == first_key_for(s, n)->Some_0,
    decreases s.len(),
{
    if s.len() > 0 {
        if s[0].has_component && short_name_of(s[0].type_path@) == n {
        } else {
            lemma_first_key_member(s.drop_first(), n);
            let j = choose|j: int|
                0 <= j < s.drop_first().len() && (#[trigger] s.drop_first()[j]).has_component
                    && short_name_of(s.drop_first()[j].type_path@) == n && s.drop_first()[j].type_key
                    == first_key_for(s.drop_first(), n)->Some_0;
            assert(s[j + 1] == s.drop_first()[j]);
        }
    }
}

/// `lex_lt` never relates a sequence to itself.
proof fn lemma_lex_lt_irrefl(a: Seq<char>)
    ensures
        !lex_lt(a, a),
    decreases a.len(),
{
    if a.len() > 0 {
        lemma_lex_lt_irrefl(a.drop_first());
    }
}

/// `lex_lt` is transitive.
proof fn lemma_lex_lt_trans(a: Seq<char>, b: Seq<char>, c: Seq<char>)
    requires
        lex_lt(a, b),
        lex_lt(b, c),
    ensures
        lex_lt(a, c),
    decreases a.len(),
{
    if a.len() > 0 && b.len() > 0 && c.len() > 0 {
        if a[0] == b[0] && b[0] == c[0] {
            lemma_lex_lt_trans(a.drop_first(), b.drop_first(), c.drop_first());
        }
    }
}

/// Two sequences are equal or one strictly precedes the other.
proof fn lemma_lex_lt_connected(a: Seq<char>, b: Seq<char>)
    ensures
        a == b || lex_lt(a, b) || lex_lt(b, a),
    decreases a.len(),
{
    if a.len() == 0 {
        if b.len() == 0 {
            assert(a =~= b);
        }
    } else if b.len() == 0 {
    } else if a[0] == b[0] {
        lemma_lex_lt_connected(a.drop_first(), b.drop_first());
        if a.drop_first() == b.drop_first() {
            assert(a.drop_first().len() == b.drop_first().len());
            assert(a.len() == b.len());
            assert forall|i: int| 0 <= i < a.len() implies a[i] == b[i] by {
                if i > 0 {
                    assert(a[i] == a.drop_first()[i - 1]);
                    assert(b[i] == b.drop_first()[i - 1]);
                }
            }
            assert(a =~= b);
        }
    }
}

/// The immutable, name-sorted catalog of every reflected type that exposes
/// the attachable-as-component capability: built once by a scan of the
/// reflection registry, after the registry is fully populated.
pub struct Catalog {
    entries: Vec<CatalogEntry>,
}

impl Catalog {
    /// The catalog entries, ascending by display name.
    pub closed spec fn entries_seq(self) -> Seq<CatalogEntry> {
        self.entries@
    }

    /// Well-formedness: strictly sorted ascending by display name, and each
    /// entry references a distinct type.
    pub open spec fn wf(self) -> bool {
        &&& sorted_names(self.entries_seq())
        &&& forall|a: int, b: int|
            0 <= a < b < self.entries_seq().len() ==> (#[trigger] self.entries_seq()[a]).type_key
                != (#[trigger] self.entries_seq()[b]).type_key
    }

    /// Some entry carries display name `n`.
    pub open spec fn has_name(self, n: Seq<char>) -> bool {
        exists|a: int|
            0 <= a < self.entries_seq().len() && (#[trigger] self.entries_seq()[a]).display_name@
                == n
    }

    /// How many entries the catalog holds.
    pub fn len(&self) -> (n: usize)
        ensures
            n == self.entries_seq().len(),
    {
        self.entries.len()
    }

    /// The entry at a position, in catalog (name) order.
    pub fn entry_at(&self, i: usize) -> (e: &CatalogEntry)
        requires
            i < self.entries_seq().len(),
        ensures
            *e == self.entries_seq()[i as int],
    {
        &self.entries[i]
    }

    /// Scans the reflection registry once and publishes the catalog: every
    /// type exposing the component capability is recorded under its shortened
    /// display name, sorted ascending; when two types share a display name,
    /// the one registered first keeps it. Run this only after the registry is
    /// fully populated: a type registered later is missing, with no error
    /// raised.
    #[verifier::rlimit(80)]
    pub fn scan(reg: &ReflectRegistry) -> (r: Catalog)
        requires
            reg.wf(),
        ensures
            r.wf(),
            forall|a: int|
                0 <= a < r.entries_seq().len() ==> Some(
                    (#[trigger] r.entries_seq()[a]).type_key,
                ) == first_key_for(reg.types_seq(), r.entries_seq()[a].display_name@),
            forall|a: int|
                0 <= a < r.entries_seq().len() ==> has_source(
                    reg.types_seq(),
                    #[trigger] r.entries_seq()[a],
                ),
            forall|j: int|
                0 <= j < reg.types_seq().len() && (#[trigger] reg.types_seq()[j]).has_component
                    ==> r.has_name(short_name_of(reg.types_seq()[j].type_path@)),
    {
        let ghost types = reg.types_seq();
        let mut out: Vec<CatalogEntry> = Vec::new();
        let n = reg.type_count();
        let mut i: usize = 0;
        while i < n
            invariant
                reg.wf(),
                types == reg.types_seq(),
                n == types.len(),
                0 <= i <= n,
                sorted_names(out@),
                forall|a: int, b: int|
                    0 <= a < b < out@.len() ==> (#[trigger] out@[a]).type_key != (
                    #[trigger] out@[b]).type_key,
                forall|a: int|
                    0 <= a < out@.len() ==> Some((#[trigger] out@[a]).type_key) == first_key_for(
                        types.take(i as int),
                        out@[a].display_name@,
                    ),
                forall|j: int|
                    0 <= j < i && (#[trigger] types[j]).has_component ==> exists|a: int|
                        0 <= a < out@.len() && (#[trigger] out@[a]).display_name@ == short_name_of(
                            types[j].type_path@,
                        ),
            decreases n - i,
        {
            let ghost tprev = types.take(i as int);
            let ghost tnext = types.take(i + 1);
            proof {
                assert(tnext.drop_last() =~= tprev);
                assert(tnext.last() == types[i as int]);
                assert(tnext =~= tprev.push(types[i as int]));
            }
            let d = reg.type_at(i);
            if d.has_component {
                let name = short_display_name(d.type_path.as_str());
                // Is the name already taken by an earlier (capable) type?
                let mut present = false;
                let onl = out.len();
                let mut a: usize = 0;
                while a < onl
                    invariant
                        onl == out@.len(),
                        0 <= a <= onl,
                        present ==> exists|b: int|
                            0 <= b < out@.len() && (#[trigger] out@[b]).display_name@ == name@,
                        !present ==> forall|b: int|
                            0 <= b < a ==> (#[trigger] out@[b]).display_name@ != name@,
                    decreases onl - a,
                {
                    if !present && out[a].display_name.eq(&name) {
                        present = true;
                    }
                    a = a + 1;
                }
                proof {
                    // every already-recorded name keeps its first key
                    assert forall|b: int| 0 <= b < out@.len() implies Some(
                        (#[trigger] out@[b]).type_key,
                    ) == first_key_for(tnext, out@[b].display_name@) by {
                        lemma_first_key_push(tprev, types[i as int], out@[b].display_name@);
                    }
                }
                if !present {
                    // find the sorted position
                    let mut idx: usize = 0;
                    while idx < out.len() && str_lex_lt(out[idx].display_name.as_str(), name.as_str())
                        invariant
                            0 <= idx <= out@.len(),
                            forall|b: int|
                                0 <= b < idx ==> lex_lt(
                                    (#[trigger] out@[b]).display_name@,
                                    name@,
                                ),
                        decreases out@.len() - idx,
                    {
                        idx = idx + 1;
                    }
                    let ghost out0 = out@;
                    let entry = CatalogEntry { display_name: name, type_key: d.type_key };
                    proof {
                        // the new name stands nowhere in the list
                        assert forall|b: int| 0 <= b < out0.len() implies (
                        #[trigger] out0[b]).display_name@ != entry.display_name@ by {}
                        // so the registry had no earlier capable type under it
                        if first_key_for(tprev, entry.display_name@) is Some {
                            lemma_first_key_member(tprev, entry.display_name@);
                            let j = choose|j: int|
                                0 <= j < tprev.len() && (#[trigger] tprev[j]).has_component
                                    && short_name_of(tprev[j].type_path@) == entry.display_name@
                                    && tprev[j].type_key == first_key_for(
                                    tprev,
                                    entry.display_name@,
                                )->Some_0;
                            assert(tprev[j] == types[j]);
                            assert(false);
                        }
                        lemma_first_key_push(tprev, types[i as int], entry.display_name@);
                        // strict order around the insertion point
                        if idx < out0.len() {
                            lemma_lex_lt_connected(out0[idx as int].display_name@, entry.display_name@);
                            assert(lex_lt(entry.display_name@, out0[idx as int].display_name@));
                        }
                    }
                    out.insert(idx, entry);
                    proof {
                        out0.insert_ensures(idx as int, entry);
                        let out1 = out@;
                        assert(out1 == out0.insert(idx as int, entry));
                        // sortedness of the extended list
                        assert forall|a2: int, b2: int| 0 <= a2 < b2 < out1.len() implies lex_lt(
                            (#[trigger] out1[a2]).display_name@,
                            (#[trigger] out1[b2]).display_name@,
                        ) by {
                            if b2 < idx {
                            } else if b2 == idx {
                                assert(out1[a2] == out0[a2]);
                            } else {
                                assert(out1[b2] == out0[b2 - 1]);
                                if a2 < idx {
                                    assert(out1[a2] == out0[a2]);
                                    if b2 - 1 == idx {
                                        assert(b2 - 1 < out0.len());
                                        lemma_lex_lt_trans(
                                            out0[a2].display_name@,
                                            entry.display_name@,
                                            out0[idx as int].display_name@,
                                        );
                                    }
                                } else if a2 == idx {
                                    if b2 - 1 > idx {
                                        lemma_lex_lt_trans(
                                            entry.display_name@,
                                            out0[idx as int].display_name@,
                                            out0[b2 - 1].display_name@,
                                        );
                                    }
                                } else {
                                    assert(out1[a2] == out0[a2 - 1]);
                                }
                            }
                        }
                        // distinct keys: the new key never came up before
                        assert forall|a2: int, b2: int| 0 <= a2 < b2 < out1.len() implies (
                        #[trigger] out1[a2]).type_key != (#[trigger] out1[b2]).type_key by {
                            let oa: int = if a2 < idx {
                                a2
                            } else if a2 == idx {
                                -1
                            } else {
                                a2 - 1
                            };
                            let ob: int = if b2 < idx {
                                b2
                            } else if b2 == idx {
                                -1
                            } else {
                                b2 - 1
                            };
                            if oa >= 0 && ob >= 0 {
                                assert(out1[a2] == out0[oa]);
                                assert(out1[b2] == out0[ob]);
                            } else {
                                let other: int = if oa >= 0 {
                                    oa
                                } else {
                                    ob
                                };
                                let pos: int = if oa >= 0 {
                                    a2
                                } else {
                                    b2
                                };
                                assert(out1[pos] == out0[other]);
                                if out0[other].type_key == entry.type_key {
                                    lemma_first_key_member(tprev, out0[other].display_name@);
                                    let j = choose|j: int|
                                        0 <= j < tprev.len() && (
                                        #[trigger] tprev[j]).has_component && short_name_of(
                                            tprev[j].type_path@,
                                        ) == out0[other].display_name@ && tprev[j].type_key
                                            == first_key_for(
                                            tprev,
                                            out0[other].display_name@,
                                        )->Some_0;
                                    assert(tprev[j] == types[j]);
                                    assert(types[j].type_key == types[i as int].type_key);
                                    assert(false);
                                }
                            }
                        }
                        // first keys, over the extended prefix and the new list
                        assert forall|a2: int| 0 <= a2 < out1.len() implies Some(
                            (#[trigger] out1[a2]).type_key,
                        ) == first_key_for(tnext, out1[a2].display_name@) by {
                            if a2 < idx {
                                assert(out1[a2] == out0[a2]);
                            } else if a2 > idx {
                                assert(out1[a2] == out0[a2 - 1]);
                            }
                        }
                        // every capable type so far keeps a named entry
                        assert forall|j: int|
                            0 <= j < i + 1 && (#[trigger] types[j]).has_component implies exists|
                            b: int,
                        |
                            0 <= b < out1.len() && (#[trigger] out1[b]).display_name@
                                == short_name_of(types[j].type_path@) by {
                            if j < i {
                                let b0 = choose|b0: int|
                                    0 <= b0 < out0.len() && (#[trigger] out0[b0]).display_name@
                                        == short_name_of(types[j].type_path@);
                                let b1: int = if b0 < idx {
                                    b0
                                } else {
                                    b0 + 1
                                };
                                assert(out1[b1] == out0[b0]);
                            } else {
                                assert(out1[idx as int] == entry);
                            }
                        }
                    }
                } else {
                    proof {
                        let b = choose|b: int|
                            0 <= b < out@.len() && (#[trigger] out@[b]).display_name@ == name@;
                        assert(out@[b].display_name@ == short_name_of(
                            types[i as int].type_path@,
                        ));
                    }
                }
            } else {
                proof {
                    assert forall|b: int| 0 <= b < out@.len() implies Some(
                        (#[trigger] out@[b]).type_key,
                    ) == first_key_for(tnext, out@[b].display_name@) by {
                        lemma_first_key_push(tprev, types[i as int], out@[b].display_name@);
                    }
                }
            }
            i = i + 1;
        }
        let ghost outv = out@;
        proof {
            assert(types.take(n as int) =~= types);
            assert forall|a: int| 0 <= a < outv.len() implies has_source(
                types,
                #[trigger] outv[a],
            ) by {
                let e = outv[a];
                assert(Some(e.type_key) == first_key_for(types.take(n as int), e.display_name@));
                assert(Some(e.type_key) == first_key_for(types, e.display_name@));
                lemma_first_key_member(types, e.display_name@);
                let j = choose|j: int|
                    0 <= j < types.len() && (#[trigger] types[j]).has_component && short_name_of(
                        types[j].type_path@,
                    ) == e.display_name@ && types[j].type_key == first_key_for(
                        types,
                        e.display_name@,
                    )->Some_0;
                assert(entry_source(types, e, j));
                assert(has_source(types, e));
            }
        }
        let r = Catalog { entries: out };
        proof {
            assert(r.entries_seq() == outv);
            assert forall|a: int| 0 <= a < r.entries_seq().len() implies has_source(
                reg.types_seq(),
                #[trigger] r.entries_seq()[a],
            ) by {
                assert(r.entries_seq()[a] == outv[a]);
                assert(has_source(types, outv[a]));
            }
        }
        r
    }

    /// The catalog entries whose display names contain the filter text,
    /// case-insensitively, in catalog order. Re-evaluated on every call; an
    /// empty filter yields the whole catalog.
    pub fn list_matches(&self, filter: &str) -> (r: Vec<CatalogEntry>)
        ensures
            entries_view(r@) == matches_model(self.entries_seq(), filter@),
            filter@.len() == 0 ==> entries_view(r@) == entries_view(self.entries_seq()),
    {
        let lowered_filter = lowercase(filter);
        let mut out: Vec<CatalogEntry> = Vec::new();
        let n = self.entries.len();
        let mut i: usize = 0;
        while i < n
            invariant
                n == self.entries_seq().len(),
                0 <= i <= n,
                lowered_filter@ == lower_of(filter@),
                entries_view(out@) == matches_model(self.entries_seq().take(i as int), filter@),
            decreases n - i,
        {
            let ghost sprev = self.entries_seq().take(i as int);
            let ghost snext = self.entries_seq().take(i + 1);
            proof {
                assert(snext.drop_last() =~= sprev);
                assert(snext.last() == self.entries_seq()[i as int]);
            }
            let e = &self.entries[i];
            let lowered_name = lowercase(e.display_name.as_str());
            if str_contains_sub(lowered_name.as_str(), lowered_filter.as_str()) {
                let ghost out0 = out@;
                out.push(e.duplicate());
                proof {
                    assert(entries_view(out@) =~= entries_view(out0).push(entry_view(out@.last())));
                    assert(entry_view(out@.last()) == entry_view(self.entries_seq()[i as int]));
                }
            }
            i = i + 1;
        }
        proof {
            assert(self.entries_seq().take(n as int) =~= self.entries_seq());
            if filter@.len() == 0 {
                lemma_matches_model_full(self.entries_seq(), filter@);
            }
        }
        out
    }
}

/// Against a filter whose lowercase form is empty, every entry matches: the
/// listing is the whole catalog, in catalog order.
proof fn lemma_matches_model_full(s: Seq<CatalogEntry>, f: Seq<char>)
    requires
        lower_of(f).len() == 0,
    ensures
        matches_model(s, f) == entries_view(s),
    decreases s.len(),
{
    if s.len() == 0 {
        assert(entries_view(s) =~= Seq::<(Seq<char>, u64)>::empty());
    } else {
        lemma_matches_model_full(s.drop_last(), f);
        lemma_contains_empty(lower_of(s.last().display_name@), lower_of(f));
        assert(entries_view(s) =~= entries_view(s.drop_last()).push(entry_view(s.last())));
    }
}

/// What a listing yields came from the catalog: each listed pair denotes a
/// catalog entry whose name matches the filter, and relative order is kept.
pub proof fn lemma_matches_members(s: Seq<CatalogEntry>, f: Seq<char>)
    ensures
        forall|i: int|
            0 <= i < matches_model(s, f).len() ==> name_matches(
                (#[trigger] matches_model(s, f)[i]).0,
                f,
            ),
        forall|i: int|
            0 <= i < matches_model(s, f).len() ==> exists|j: int|
                0 <= j < s.len() && (#[trigger] matches_model(s, f)[i]) == entry_view(
                    #[trigger] s[j],
                ),
    decreases s.len(),
{
    if s.len() > 0 {
        lemma_matches_members(s.drop_last(), f);
        let sub = matches_model(s.drop_last(), f);
        assert forall|i: int| 0 <= i < sub.len() implies exists|j: int|
            0 <= j < s.len() && (#[trigger] sub[i]) == entry_view(#[trigger] s[j]) by {
            let j = choose|j: int|
                0 <= j < s.drop_last().len() && (#[trigger] sub[i]) == entry_view(
                    #[trigger] s.drop_last()[j],
                );
            assert(s.drop_last()[j] == s[j]);
        }
        if name_matches(s.last().display_name@, f) {
            let res = matches_model(s, f);
            assert(res == sub.push(entry_view(s.last())));
            assert forall|i: int| 0 <= i < res.len() implies exists|j: int|
                0 <= j < s.len() && (#[trigger] res[i]) == entry_view(#[trigger] s[j]) by {
                if i < sub.len() {
                    assert(res[i] == sub[i]);
                } else {
                    assert(res[i] == entry_view(s[s.len() - 1]));
                }
            }
        }
    }
}

/// A listing of a sorted catalog is itself strictly sorted by name: filtering
/// preserves the catalog's order.
pub proof fn lemma_matches_sorted(s: Seq<CatalogEntry>, f: Seq<char>)
    requires
        sorted_names(s),
    ensures
        forall|a: int, b: int|
            0 <= a < b < matches_model(s, f).len() ==> lex_lt(
                (#[trigger] matches_model(s, f)[a]).0,
                (#[trigger] matches_model(s, f)[b]).0,
            ),
    decreases s.len(),
{
    if s.len() > 0 {
        assert forall|a: int, b: int|
            0 <= a < b < s.drop_last().len() implies lex_lt(
            (#[trigger] s.drop_last()[a]).display_name@,
            (#[trigger] s.drop_last()[b]).display_name@,
        ) by {
            assert(s.drop_last()[a] == s[a]);
            assert(s.drop_last()[b] == s[b]);
        }
        lemma_matches_sorted(s.drop_last(), f);
        lemma_matches_members(s.drop_last(), f);
        let sub = matches_model(s.drop_last(), f);
        if name_matches(s.last().display_name@, f) {
            let res = matches_model(s, f);
            assert(res == sub.push(entry_view(s.last())));
            assert forall|a: int, b: int| 0 <= a < b < res.len() implies lex_lt(
                (#[trigger] res[a]).0,
                (#[trigger] res[b]).0,
            ) by {
                if b < sub.len() {
                    assert(res[a] == sub[a] && res[b] == sub[b]);
                } else {
                    assert(res[b] == entry_view(s[s.len() - 1]));
                    assert(res[a] == sub[a]);
                    let j = choose|j: int|
                        0 <= j < s.drop_last().len() && (#[trigger] sub[a]) == entry_view(
                            #[trigger] s.drop_last()[j],
                        );
                    assert(s[j] == s.drop_last()[j]);
                    assert(lex_lt(s[j].display_name@, s[s.len() - 1].display_name@));
                }
            }
        }
    }
}

} // verus!

use vstd::prelude::*;

use crate::lookup::find_by;
use crate::lookup::lemma_find_found;
use crate::lookup::lemma_find_none_iff;
use crate::lookup::lemma_find_push;
use crate::lookup::lemma_find_remove;
use crate::lookup::lemma_find_remove_other;
use crate::lookup::lemma_find_update;
use crate::lookup::lemma_find_update_other;
use crate::lookup::unique_keys;
use crate::text::dec_chars;
use crate::text::u64_to_decimal;

verus! {

/// A structural descriptor of one reflected data-record type: its fully
/// qualified path, a stable key referencing it, whether it exposes the
/// attachable-as-component capability, and the bits a default-constructed
/// instance carries.
pub struct TypeDescriptor {
    pub type_path: String,
    pub type_key: u64,
    pub has_component: bool,
    pub default_bits: u64,
}

/// The key a descriptor is resolved by.
pub open spec fn desc_key() -> spec_fn(TypeDescriptor) -> u64 {
    |d: TypeDescriptor| d.type_key
}

/// A dynamically typed instance produced through the reflection boundary:
/// tagged with the type it instantiates, carrying its payload bits.
#[derive(PartialEq, Eq, Structural, Clone, Copy, Debug)]
pub struct StructuralValue {
    pub type_key: u64,
    pub bits: u64,
}

/// The key a component slot is resolved by.
pub open spec fn slot_key() -> spec_fn(StructuralValue) -> u64 {
    |v: StructuralValue| v.type_key
}

/// The descriptor table standing at the reflection boundary: it maps stable
/// type keys to structural descriptors. Each attachable type pre-registers
/// its descriptor here at setup.
pub struct ReflectRegistry {
    types: Vec<TypeDescriptor>,
}

impl ReflectRegistry {
    /// The registered descriptors, in registration order.
    pub closed spec fn types_seq(self) -> Seq<TypeDescriptor> {
        self.types@
    }

    /// Well-formedness: type keys are pairwise distinct.
    pub open spec fn wf(self) -> bool {
        unique_keys(self.types_seq(), desc_key())
    }

    /// The descriptor `key` resolves to, if any.
    pub open spec fn resolve_spec(self, key: u64) -> Option<TypeDescriptor> {
        find_by(self.types_seq(), desc_key(), key)
    }

    pub fn new() -> (r: Self)
        ensures
            r.wf(),
            r.types_seq() =~= Seq::<TypeDescriptor>::empty(),
            forall|k: u64| r.resolve_spec(k) is None,
    {
        ReflectRegistry { types: Vec::new() }
    }

    /// How many types the registry knows.
    pub fn type_count(&self) -> (n: usize)
        ensures
            n == self.types_seq().len(),
    {
        self.types.len()
    }

    /// The descriptor at an enumeration position.
    pub fn type_at(&self, i: usize) -> (d: &TypeDescriptor)
        requires
            i < self.types_seq().len(),
        ensures
            *d == self.types_seq()[i as int],
    {
        &self.types[i]
    }

    /// Finds the position of the descriptor `key` resolves to.
    fn position_of(&self, key: u64) -> (r: Option<usize>)
        ensures
            match r {
                Some(i) => i < self.types_seq().len() && self.types_seq()[i as int].type_key == key
                    && self.resolve_spec(key) == Some(self.types_seq()[i as int]),
                None => self.resolve_spec(key) is None,
            },
    {
        let n = self.types.len();
        let mut i: usize = 0;
        while i < n
            invariant
                n == self.types_seq().len(),
                0 <= i <= n,
                forall|j: int| 0 <= j < i ==> (#[trigger] self.types_seq()[j]).type_key != key,
            decreases n - i,
        {
            if self.types[i].type_key == key {
                proof {
                    lemma_find_found(self.types_seq(), desc_key(), key, i as int);
                }
                return Some(i);
            }
            i = i + 1;
        }
        proof {
            lemma_find_none_iff(self.types_seq(), desc_key(), key);
        }
        None
    }

    /// Registers a type's descriptor. A key already known is rejected, so
    /// keys stay pairwise distinct.
    pub fn register_type(&mut self, desc: TypeDescriptor) -> (ok: bool)
        requires
            old(self).wf(),
        ensures
            final(self).wf(),
            ok == (old(self).resolve_spec(desc.type_key) is None),
            ok ==> final(self).types_seq() == old(self).types_seq().push(desc),
            ok ==> final(self).resolve_spec(desc.type_key) == Some(desc),
            forall|k: u64|
                k != desc.type_key ==> final(self).resolve_spec(k) == old(self).resolve_spec(k),
            !ok ==> *final(self) == *old(self),
    {
        match self.position_of(desc.type_key) {
            Some(_) => false,
            None => {
                let ghost s0 = self.types@;
                let ghost key = desc.type_key;
                self.types.push(desc);
                proof {
                    lemma_find_none_iff(s0, desc_key(), key);
                    assert forall|k: u64| true implies find_by(
                        s0.push(desc),
                        desc_key(),
                        k,
                    ) == if k == key {
                        Some(desc)
                    } else {
                        find_by(s0, desc_key(), k)
                    } by {
                        lemma_find_push(s0, desc_key(), desc, k);
                    }
                    assert forall|i: int, j: int|
                        0 <= i < j < self.types_seq().len() implies desc_key()(
                            #[trigger] self.types_seq()[i],
                        ) != desc_key()(#[trigger] self.types_seq()[j]) by {
                        if j < s0.len() {
                        } else {
                            assert(self.types_seq()[j] == desc);
                            assert(self.types_seq()[i] == s0[i]);
                        }
                    }
                }
                true
            },
        }
    }

    /// Forgets the type `key` references, as a host registry may between the
    /// catalog scan and a later resolution. Every other key still resolves as
    /// before.
    pub fn remove_type(&mut self, key: u64)
        requires
            old(self).wf(),
        ensures
            final(self).wf(),
            final(self).resolve_spec(key) is None,
            forall|k: u64| k != key ==> final(self).resolve_spec(k) == old(self).resolve_spec(k),
    {
        match self.position_of(key) {
            Some(i) => {
                let ghost s0 = self.types@;
                self.types.remove(i);
                proof {
                    assert(self.types@ == s0.remove(i as int));
                    lemma_find_remove(s0, desc_key(), i as int);
                    assert forall|k: u64| k != key implies find_by(
                        s0.remove(i as int),
                        desc_key(),
                        k,
                    ) == find_by(s0, desc_key(), k) by {
                        lemma_find_remove_other(s0, desc_key(), i as int, k);
                    }
                    assert forall|a: int, b: int|
                        0 <= a < b < self.types_seq().len() implies desc_key()(
                            #[trigger] self.types_seq()[a],
                        ) != desc_key()(#[trigger] self.types_seq()[b]) by {
                        let sa: int = if a < i { a } else { a + 1 };
                        let sb: int = if b < i { b } else { b + 1 };
                        assert(self.types_seq()[a] == s0[sa]);
                        assert(self.types_seq()[b] == s0[sb]);
                    }
                }
            },
            None => {},
        }
    }

    /// Resolves a stable type key to its structural descriptor; nothing when
    /// the registry no longer (or never) knew the key.
    pub fn resolve(&self, key: u64) -> (r: Option<&TypeDescriptor>)
        ensures
            match r {
                Some(d) => self.resolve_spec(key) == Some(*d),
                None => self.resolve_spec(key) is None,
            },
    {
        match self.position_of(key) {
            Some(i) => Some(&self.types[i]),
            None => None,
        }
    }
}

impl TypeDescriptor {
    /// Constructs a default-valued instance of the described type through the
    /// descriptor alone: the instance carries the descriptor's default bits.
    pub fn construct_default(&self) -> (v: StructuralValue)
        ensures
            v == (StructuralValue { type_key: self.type_key, bits: self.default_bits }),
    {
        StructuralValue { type_key: self.type_key, bits: self.default_bits }
    }
}

/// One live object: its id, an optional display name, and the components
/// attached to it, at most one per type.
pub struct EntityRecord {
    pub id: u64,
    pub name: Option<String>,
    pub components: Vec<StructuralValue>,
}

impl EntityRecord {
    /// The attached components, in attachment order.
    pub open spec fn comps(self) -> Seq<StructuralValue> {
        self.components@
    }

    /// Well-formedness: at most one component per type key.
    pub open spec fn wf(self) -> bool {
        unique_keys(self.comps(), slot_key())
    }
}

/// The key an entity record is resolved by.
pub open spec fn entity_key() -> spec_fn(EntityRecord) -> u64 {
    |e: EntityRecord| e.id
}

/// The live object store the inspector mutates: a set of entities, each with
/// its attached components.
pub struct WorldModel {
    entities: Vec<EntityRecord>,
}

impl WorldModel {
    /// The live entities, in spawn order.
    pub closed spec fn entities_seq(self) -> Seq<EntityRecord> {
        self.entities@
    }

    /// Well-formedness: entity ids are pairwise distinct and every record is
    /// well-formed.
    pub open spec fn wf(self) -> bool {
        &&& unique_keys(self.entities_seq(), entity_key())
        &&& forall|i: int|
            0 <= i < self.entities_seq().len() ==> (#[trigger] self.entities_seq()[i]).wf()
    }

    /// The record of entity `e`, if it lives.
    pub open spec fn record_of(self, e: u64) -> Option<EntityRecord> {
        find_by(self.entities_seq(), entity_key(), e)
    }

    /// Entity `e` lives in the store.
    pub open spec fn has_entity_spec(self, e: u64) -> bool {
        self.record_of(e) is Some
    }

    /// The component of type `k` attached to entity `e`, if any.
    pub open spec fn component_of(self, e: u64, k: u64) -> Option<StructuralValue> {
        match self.record_of(e) {
            Some(rec) => find_by(rec.comps(), slot_key(), k),
            None => None,
        }
    }

    /// The display name of entity `e`, if it lives and carries one.
    pub open spec fn name_of(self, e: u64) -> Option<Option<String>> {
        match self.record_of(e) {
            Some(rec) => Some(rec.name),
            None => None,
        }
    }

    /// How many components entity `e` carries.
    pub open spec fn component_count_of(self, e: u64) -> nat {
        match self.record_of(e) {
            Some(rec) => rec.comps().len(),
            None => 0,
        }
    }

    pub fn new() -> (r: Self)
        ensures
            r.wf(),
            r.entities_seq() =~= Seq::<EntityRecord>::empty(),
            forall|e: u64| !r.has_entity_spec(e),
    {
        WorldModel { entities: Vec::new() }
    }

    /// Finds the position of entity `e`'s record.
    fn position_of(&self, e: u64) -> (r: Option<usize>)
        ensures
            match r {
                Some(i) => i < self.entities_seq().len() && self.entities_seq()[i as int].id == e
                    && self.record_of(e) == Some(self.entities_seq()[i as int]),
                None => !self.has_entity_spec(e),
            },
    {
        let n = self.entities.len();
        let mut i: usize = 0;
        while i < n
            invariant
                n == self.entities_seq().len(),
                0 <= i <= n,
                forall|j: int| 0 <= j < i ==> (#[trigger] self.entities_seq()[j]).id != e,
            decreases n - i,
        {
            if self.entities[i].id == e {
                proof {
                    lemma_find_found(self.entities_seq(), entity_key(), e, i as int);
                }
                return Some(i);
            }
            i = i + 1;
        }
        proof {
            lemma_find_none_iff(self.entities_seq(), entity_key(), e);
        }
        None
    }

    /// Entity `e` lives in the store.
    pub fn has_entity(&self, e: u64) -> (r: bool)
        ensures
            r == self.has_entity_spec(e),
    {
        self.position_of(e).is_some()
    }

    /// Spawns entity `e` with no components. An id already live is rejected.
    pub fn spawn(&mut self, e: u64, name: Option<String>) -> (ok: bool)
        requires
            old(self).wf(),
        ensures
            final(self).wf(),
            ok == !old(self).has_entity_spec(e),
            ok ==> final(self).has_entity_spec(e),
            ok ==> final(self).name_of(e) == Some(name),
            ok ==> forall|k: u64| final(self).component_of(e, k) is None,
            forall|e2: u64| e2 != e ==> final(self).record_of(e2) == old(self).record_of(e2),
            !ok ==> *final(self) == *old(self),
    {
        match self.position_of(e) {
            Some(_) => false,
            None => {
                let ghost s0 = self.entities@;
                let rec = EntityRecord { id: e, name, components: Vec::new() };
                self.entities.push(rec);
                proof {
                    lemma_find_none_iff(s0, entity_key(), e);
                    assert forall|k: u64| true implies find_by(
                        s0.push(rec),
                        entity_key(),
                        k,
                    ) == if k == e {
                        Some(rec)
                    } else {
                        find_by(s0, entity_key(), k)
                    } by {
                        lemma_find_push(s0, entity_key(), rec, k);
                    }
                    assert forall|i: int, j: int|
                        0 <= i < j < self.entities_seq().len() implies entity_key()(
                            #[trigger] self.entities_seq()[i],
                        ) != entity_key()(#[trigger] self.entities_seq()[j]) by {
                        if j == s0.len() {
                            assert(self.entities_seq()[i] == s0[i]);
                        }
                    }
                    assert(rec.comps() =~= Seq::<StructuralValue>::empty());
                }
                true
            },
        }
    }

    /// Attaches `value` to entity `e` through the reflection boundary's
    /// attach capability: membership is idempotent, so a component of the
    /// same type is replaced, never duplicated.
    pub fn attach(&mut self, e: u64, value: StructuralValue)
        requires
            old(self).wf(),
            old(self).has_entity_spec(e),
        ensures
            final(self).wf(),
            forall|e2: u64| e2 != e ==> final(self).record_of(e2) == old(self).record_of(e2),
            forall|e2: u64|
                final(self).has_entity_spec(e2) == old(self).has_entity_spec(e2),
            final(self).name_of(e) == old(self).name_of(e),
            final(self).component_of(e, value.type_key) == Some(value),
            forall|k: u64|
                k != value.type_key ==> final(self).component_of(e, k) == old(self).component_of(
                    e,
                    k,
                ),
            final(self).component_count_of(e) == if old(self).component_of(e, value.type_key)
                is Some {
                old(self).component_count_of(e)
            } else {
                old(self).component_count_of(e) + 1
            },
    {
        let i = match self.position_of(e) {
            Some(i) => i,
            None => {
                proof {
                    assert(false);
                }
                0
            },
        };
        let ghost s0 = self.entities@;
        let ghost rec0 = self.entities@[i as int];
        let ghost c0 = rec0.components@;

        // find the slot holding this type, if any
        let rec = &self.entities[i];
        let m = rec.components.len();
        let mut j: usize = 0;
        let mut found: Option<usize> = None;
        while j < m
            invariant
                m == rec0.comps().len(),
                self.entities@ == s0,
                i < s0.len(),
                self.entities@[i as int] == rec0,
                0 <= j <= m,
                found is Some ==> j == m,
                found is None ==> forall|l: int|
                    0 <= l < j ==> (#[trigger] rec0.comps()[l]).type_key != value.type_key,
                found matches Some(p) ==> p < m && rec0.comps()[p as int].type_key
                    == value.type_key && find_by(rec0.comps(), slot_key(), value.type_key) == Some(
                    rec0.comps()[p as int],
                ),
            decreases m - j,
        {
            if self.entities[i].components[j].type_key == value.type_key {
                proof {
                    lemma_find_found(rec0.comps(), slot_key(), value.type_key, j as int);
                }
                found = Some(j);
                j = m;
            } else {
                j = j + 1;
            }
        }
        proof {
            if found is None {
                lemma_find_none_iff(rec0.comps(), slot_key(), value.type_key);
            }
        }

        let entry = &mut self.entities[i];
        match found {
            Some(p) => {
                entry.components[p] = value;
                proof {
                    lemma_find_update(c0, slot_key(), value, p as int);
                    assert forall|k: u64| k != value.type_key implies find_by(
                        c0.update(p as int, value),
                        slot_key(),
                        k,
                    ) == find_by(c0, slot_key(), k) by {
                        lemma_find_update_other(c0, slot_key(), value, p as int, k);
                    }
                    assert forall|a: int, b: int|
                        0 <= a < b < c0.update(p as int, value).len() implies slot_key()(
                            #[trigger] c0.update(p as int, value)[a],
                        ) != slot_key()(#[trigger] c0.update(p as int, value)[b]) by {
                        assert(c0.update(p as int, value)[a].type_key == c0[a].type_key);
                        assert(c0.update(p as int, value)[b].type_key == c0[b].type_key);
                    }
                }
            },
            None => {
                entry.components.push(value);
                proof {
                    assert forall|k: u64| true implies find_by(
                        c0.push(value),
                        slot_key(),
                        k,
                    ) == if k == value.type_key {
                        Some(value)
                    } else {
                        find_by(c0, slot_key(), k)
                    } by {
                        lemma_find_push(c0, slot_key(), value, k);
                    }
                    assert forall|a: int, b: int|
                        0 <= a < b < c0.push(value).len() implies slot_key()(
                            #[trigger] c0.push(value)[a],
                        ) != slot_key()(#[trigger] c0.push(value)[b]) by {
                        if b == c0.len() {
                            assert(c0.push(value)[a] == c0[a]);
                        }
                    }
                }
            },
        }
        proof {
            let rec1 = self.entities@[i as int];
            let s1 = self.entities@;
            assert(s1 == s0.update(i as int, rec1));
            assert(rec1.id == rec0.id);
            assert(entity_key()(rec1) == entity_key()(rec0));
            lemma_find_update(s0, entity_key(), rec1, i as int);
            assert forall|e2: u64| e2 != e implies find_by(s1, entity_key(), e2) == find_by(
                s0,
                entity_key(),
                e2,
            ) by {
                lemma_find_update_other(s0, entity_key(), rec1, i as int, e2);
            }
            assert forall|a: int, b: int|
                0 <= a < b < s1.len() implies entity_key()(#[trigger] s1[a]) != entity_key()(
                #[trigger] s1[b]) by {
                assert(s1[a].id == s0[a].id);
                assert(s1[b].id == s0[b].id);
            }
            assert forall|a: int| 0 <= a < s1.len() implies (#[trigger] s1[a]).wf() by {
                if a != i {
                    assert(s1[a] == s0[a]);
                }
            }
        }
    }

    /// The component of type `key` attached to entity `e`, if any.
    pub fn get_component(&self, e: u64, key: u64) -> (r: Option<StructuralValue>)
        ensures
            r == self.component_of(e, key),
    {
        match self.position_of(e) {
            Some(i) => {
                let rec = &self.entities[i];
                let m = rec.components.len();
                let mut j: usize = 0;
                while j < m
                    invariant
                        m == rec.comps().len(),
                        self.record_of(e) == Some(*rec),
                        0 <= j <= m,
                        forall|l: int|
                            0 <= l < j ==> (#[trigger] rec.comps()[l]).type_key != key,
                    decreases m - j,
                {
                    if rec.components[j].type_key == key {
                        proof {
                            lemma_find_found(rec.comps(), slot_key(), key, j as int);
                        }
                        return Some(rec.components[j]);
                    }
                    j = j + 1;
                }
                proof {
                    lemma_find_none_iff(rec.comps(), slot_key(), key);
                }
                None
            },
            None => None,
        }
    }

    /// How many components entity `e` carries; zero when it does not live.
    pub fn component_count(&self, e: u64) -> (n: usize)
        ensures
            n == self.component_count_of(e),
    {
        match self.position_of(e) {
            Some(i) => self.entities[i].components.len(),
            None => 0,
        }
    }

    /// The label the editor displays for entity `e`: its name component when
    /// it carries one, else `Entity ` followed by its id in decimal.
    pub fn entity_name(&self, e: u64) -> (r: String)
        ensures
            r@ == match self.name_of(e) {
                Some(Some(n)) => n@,
                _ => "Entity "@ + dec_chars(e as nat),
            },
    {
        match self.position_of(e) {
            Some(i) => {
                match &self.entities[i].name {
                    Some(n) => n.clone(),
                    None => {
                        let mut label = String::from_str("Entity ");
                        let digits = u64_to_decimal(e);
                        label.append(digits.as_str());
                        label
                    },
                }
            },
            None => {
                let mut label = String::from_str("Entity ");
                let digits = u64_to_decimal(e);
                label.append(digits.as_str());
                label
            },
        }
    }
}

} // verus!

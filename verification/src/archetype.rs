//! The in-memory archetype cache: entities grouped by attribute set, with one
//! column of serialized component data per attribute.
use crate::ids::{archetype_id, archetype_id_of, ids_digest, set_from_ids, sort_ids, sort_seq, strictly_sorted};
use std::collections::hash_map::Entry;
use std::collections::HashMap;
use std::collections::HashSet;
use vstd::prelude::*;
use vstd::std_specs::iter::IteratorSpec;

verus! {

broadcast use vstd::std_specs::hash::group_hash_axioms, vstd::seq_lib::group_seq_properties;

pub type ArchetypeId = u64;

pub type ThingId = u128;

/// One slot of a column, as bytes.
pub open spec fn slot_view(o: Option<Vec<u8>>) -> Option<Seq<u8>> {
    match o {
        Some(v) => Some(v@),
        None => None,
    }
}

/// A borrowed slot, as bytes.
pub open spec fn ref_view(o: Option<&Vec<u8>>) -> Option<Seq<u8>> {
    match o {
        Some(v) => Some(v@),
        None => None,
    }
}

/// The values of the occupied slots, in slot order.
pub open spec fn present(s: Seq<Option<Seq<u8>>>) -> Seq<Seq<u8>>
    decreases s.len(),
{
    if s.len() == 0 {
        Seq::empty()
    } else {
        match s.last() {
            Some(v) => present(s.drop_last()).push(v),
            None => present(s.drop_last()),
        }
    }
}

/// `s` lengthened with empty slots to at least `n` slots.
pub open spec fn padded(s: Seq<Option<Seq<u8>>>, n: int) -> Seq<Option<Seq<u8>>> {
    if s.len() >= n {
        s
    } else {
        s + Seq::new((n - s.len()) as nat, |i: int| None)
    }
}

/// The swap-remove of index `i`: the last element moves into `i`, and the sequence shrinks by one.
pub open spec fn swap_removed<A>(s: Seq<A>, i: int) -> Seq<A> {
    s.update(i, s.last()).drop_last()
}

/// The data of one attribute for every entity of an archetype, by slot.
pub struct ComponentStorage {
    slots: Vec<Option<Vec<u8>>>,
}

impl View for ComponentStorage {
    type V = Seq<Option<Seq<u8>>>;

    closed spec fn view(&self) -> Seq<Option<Seq<u8>>> {
        self.slots@.map_values(|o: Option<Vec<u8>>| slot_view(o))
    }
}

impl ComponentStorage {
    fn new() -> (r: Self)
        ensures
            r@ == Seq::<Option<Seq<u8>>>::empty(),
    {
        let r = Self { slots: Vec::new() };
        assert(r@ =~= Seq::<Option<Seq<u8>>>::empty());
        r
    }

    fn append_empty_slot(&mut self)
        ensures
            final(self)@ == old(self)@.push(None),
    {
        self.slots.push(None);
        assert(final(self)@ =~= old(self)@.push(None));
    }

    fn set(&mut self, slot: usize, data: Vec<u8>)
        requires
            slot < usize::MAX,
        ensures
            final(self)@ == padded(old(self)@, slot + 1).update(slot as int, Some(data@)),
    {
        while self.slots.len() <= slot
            invariant
                slot < usize::MAX,
                self@ == padded(old(self)@, self@.len() as int),
                self@.len() >= old(self)@.len(),
                self@.len() <= slot + 1 || self@ == old(self)@,
            decreases slot + 1 - self.slots.len(),
        {
            let ghost pre = self@;
            self.slots.push(None);
            assert(self@ =~= pre.push(None));
            assert(padded(old(self)@, self@.len() as int) =~= pre.push(None));
        }
        assert(padded(old(self)@, slot + 1) =~= self@);
        self.slots.set(slot, Some(data));
        assert(final(self)@ =~= padded(old(self)@, slot + 1).update(slot as int, Some(data@)));
    }

    fn get(&self, slot: usize) -> (r: Option<&Vec<u8>>)
        ensures
            ref_view(r) == (if slot < self@.len() {
                self@[slot as int]
            } else {
                None
            }),
    {
        if slot < self.slots.len() {
            match &self.slots[slot] {
                Some(v) => Some(v),
                None => None,
            }
        } else {
            None
        }
    }

    fn swap_with_last(&mut self, slot: usize)
        requires
            slot < old(self)@.len(),
        ensures
            final(self)@ == swap_removed(old(self)@, slot as int),
    {
        self.slots.swap_remove(slot);
        assert(final(self)@ =~= swap_removed(old(self)@, slot as int));
    }

    /// The number of slots.
    pub fn len(&self) -> (n: usize)
        ensures
            n == self@.len(),
    {
        self.slots.len()
    }

    /// The data of the occupied slots, in slot order.
    pub fn iter(&self) -> (r: Vec<&Vec<u8>>)
        ensures
            r@.map_values(|v: &Vec<u8>| v@) == present(self@),
    {
        let mut r: Vec<&Vec<u8>> = Vec::new();
        let mut i: usize = 0;
        while i < self.slots.len()
            invariant
                i <= self@.len(),
                r@.map_values(|v: &Vec<u8>| v@) == present(self@.take(i as int)),
            decreases self@.len() - i,
        {
            let ghost pre = r@;
            assert(self@.take(i + 1).drop_last() =~= self@.take(i as int));
            match &self.slots[i] {
                Some(v) => {
                    r.push(v);
                    assert(r@.map_values(|v: &Vec<u8>| v@) =~= pre.map_values(|v: &Vec<u8>| v@).push(
                        v@,
                    ));
                },
                None => {},
            }
            i = i + 1;
        }
        assert(self@.take(self@.len() as int) =~= self@);
        r
    }
}

/// The abstract content of an archetype: its entities in slot order, and for each
/// registered attribute the column of data slots parallel to the entities.
pub struct ArchetypeView {
    pub entities: Seq<ThingId>,
    pub columns: Map<u64, Seq<Option<Seq<u8>>>>,
}

impl ArchetypeView {
    pub open spec fn empty() -> Self {
        ArchetypeView { entities: Seq::empty(), columns: Map::empty() }
    }

    /// Entities occur once, and every column has one slot per entity.
    pub open spec fn wf(self) -> bool {
        &&& self.entities.no_duplicates()
        &&& forall|h: u64| #[trigger]
            self.columns.contains_key(h) ==> self.columns[h].len() == self.entities.len()
    }

    pub open spec fn has(self, t: ThingId) -> bool {
        self.entities.contains(t)
    }

    pub open spec fn slot(self, t: ThingId) -> int {
        self.entities.index_of(t)
    }

    /// The data of attribute `h` of entity `t`.
    pub open spec fn get(self, t: ThingId, h: u64) -> Option<Seq<u8>> {
        if self.has(t) && self.columns.contains_key(h) {
            self.columns[h][self.slot(t)]
        } else {
            None
        }
    }

    pub open spec fn registered(self, h: u64) -> Self {
        if self.columns.contains_key(h) {
            self
        } else {
            ArchetypeView {
                entities: self.entities,
                columns: self.columns.insert(h, Seq::new(self.entities.len(), |i: int| None)),
            }
        }
    }

    pub open spec fn spawned(self, t: ThingId) -> Self {
        if self.has(t) {
            self
        } else {
            ArchetypeView {
                entities: self.entities.push(t),
                columns: self.columns.map_values(|c: Seq<Option<Seq<u8>>>| c.push(None)),
            }
        }
    }

    pub open spec fn despawned(self, t: ThingId) -> Self {
        if self.has(t) {
            let i = self.slot(t);
            ArchetypeView {
                entities: swap_removed(self.entities, i),
                columns: self.columns.map_values(|c: Seq<Option<Seq<u8>>>| swap_removed(c, i)),
            }
        } else {
            self
        }
    }

    pub open spec fn with_component(self, t: ThingId, h: u64, v: Seq<u8>) -> Self {
        if self.has(t) && self.columns.contains_key(h) {
            ArchetypeView {
                entities: self.entities,
                columns: self.columns.insert(h, self.columns[h].update(self.slot(t), Some(v))),
            }
        } else {
            self
        }
    }
}

/// In a sequence without duplicates, `index_of` finds the one position of an element.
pub proof fn lemma_index_of_unique<A>(s: Seq<A>, i: int)
    requires
        s.no_duplicates(),
        0 <= i < s.len(),
    ensures
        s.index_of(s[i]) == i,
{
    assert(s.contains(s[i]));
    let j = s.index_of(s[i]);
    assert(0 <= j < s.len() && s[j] == s[i]);
}

pub proof fn lemma_swap_removed_no_duplicates<A>(s: Seq<A>, i: int)
    requires
        s.no_duplicates(),
        0 <= i < s.len(),
    ensures
        swap_removed(s, i).no_duplicates(),
        forall|x: A| #[trigger]
            swap_removed(s, i).contains(x) <==> (s.contains(x) && x != s[i]),
{
    let r = swap_removed(s, i);
    let n = s.len() - 1;
    assert forall|a: int, b: int| 0 <= a < r.len() && 0 <= b < r.len() && a != b implies r[a]
        != r[b] by {
        let ia = if a == i { n } else { a };
        let ib = if b == i { n } else { b };
        assert(r[a] == s[ia] && r[b] == s[ib]);
    }
    assert forall|x: A| r.contains(x) <==> (s.contains(x) && x != s[i]) by {
        if r.contains(x) {
            let a = choose|a: int| 0 <= a < r.len() && r[a] == x;
            let ia = if a == i { n } else { a };
            assert(s[ia] == x);
        }
        if s.contains(x) && x != s[i] {
            let a = choose|a: int| 0 <= a < s.len() && s[a] == x;
            if a == n {
                assert(r[i] == x);
            } else {
                assert(r[a] == x);
            }
        }
    }
}

/// Law: the id that `create_archetype` gives a list of distinct attribute hashes is the
/// id that `compute_archetype_id` gives their set, whatever the order of the list.
pub proof fn law_archetype_id_of_list(hashes: Seq<u64>)
    requires
        hashes.no_duplicates(),
    ensures
        ids_digest(sort_seq(hashes)) == archetype_id_of(hashes.to_set()),
{
    crate::ids::lemma_sort_seq_props(hashes);
    assert(sort_seq(hashes).to_set() =~= hashes.to_set());
    crate::ids::lemma_canonical_of(sort_seq(hashes));
}

/// A group of entities that share one attribute set, stored column by column.
pub struct Archetype {
    entities: Vec<ThingId>,
    components: HashMap<u64, ComponentStorage>,
    component_ids: Vec<u64>,
    entity_to_slot: HashMap<ThingId, usize>,
}

impl View for Archetype {
    type V = ArchetypeView;

    closed spec fn view(&self) -> ArchetypeView {
        ArchetypeView {
            entities: self.entities@,
            columns: self.components@.map_values(|c: ComponentStorage| c@),
        }
    }
}

impl Archetype {
    /// The invariant that every operation keeps.
    pub closed spec fn wf(&self) -> bool {
        &&& self.entities@.no_duplicates()
        &&& forall|t: ThingId| #[trigger]
            self.entity_to_slot@.contains_key(t) <==> self.entities@.contains(t)
        &&& forall|t: ThingId| #[trigger]
            self.entity_to_slot@.contains_key(t) ==> self.entity_to_slot@[t]
                < self.entities@.len() && self.entities@[self.entity_to_slot@[t] as int] == t
        &&& self.component_ids@.no_duplicates()
        &&& forall|h: u64| #[trigger]
            self.components@.contains_key(h) <==> self.component_ids@.contains(h)
        &&& forall|h: u64| #[trigger]
            self.components@.contains_key(h) ==> self.components@[h]@.len()
                == self.entities@.len()
    }

    pub proof fn lemma_wf(&self)
        requires
            self.wf(),
        ensures
            self@.wf(),
    {
    }

    proof fn lemma_slot(&self, t: ThingId)
        requires
            self.wf(),
            self.entity_to_slot@.contains_key(t),
        ensures
            self@.slot(t) == self.entity_to_slot@[t],
    {
        lemma_index_of_unique(self.entities@, self.entity_to_slot@[t] as int);
    }

    pub fn new() -> (r: Self)
        ensures
            r.wf(),
            r@ == ArchetypeView::empty(),
    {
        let r = Self {
            entities: Vec::new(),
            components: HashMap::new(),
            component_ids: Vec::new(),
            entity_to_slot: HashMap::new(),
        };
        assert(r@.columns =~= Map::empty());
        r
    }

    /// Adds an empty column for `attr_hash`, one slot per entity; no change when it exists.
    pub fn register_component(&mut self, attr_hash: u64)
        requires
            old(self).wf(),
        ensures
            final(self).wf(),
            final(self)@ == old(self)@.registered(attr_hash),
    {
        if self.components.contains_key(&attr_hash) {
            return;
        }
        let mut storage = ComponentStorage::new();
        let mut i: usize = 0;
        while i < self.entities.len()
            invariant
                i <= self.entities@.len(),
                storage@ == Seq::new(i as nat, |k: int| None::<Seq<u8>>),
            decreases self.entities@.len() - i,
        {
            storage.append_empty_slot();
            i = i + 1;
            assert(storage@ =~= Seq::new(i as nat, |k: int| None::<Seq<u8>>));
        }
        self.components.insert(attr_hash, storage);
        self.component_ids.push(attr_hash);
        proof {
            assert(final(self)@.columns =~= old(self)@.registered(attr_hash).columns);
            assert forall|h: u64| #[trigger]
                self.components@.contains_key(h) <==> self.component_ids@.contains(h) by {
                if h != attr_hash && old(self).component_ids@.contains(h) {
                    let k = choose|k: int|
                        0 <= k < old(self).component_ids@.len()
                            && old(self).component_ids@[k] == h;
                    assert(self.component_ids@[k] == h);
                }
                if self.component_ids@.contains(h) && h != attr_hash {
                    let k = choose|k: int|
                        0 <= k < self.component_ids@.len() && self.component_ids@[k] == h;
                    assert(old(self).component_ids@[k] == h);
                }
                if h == attr_hash {
                    assert(self.component_ids@[self.component_ids@.len() - 1] == h);
                }
            }
        }
    }

    /// Adds `thing_id` in a new last slot with empty data, and returns its slot; an
    /// entity already present keeps its slot and data.
    pub fn spawn(&mut self, thing_id: ThingId) -> (slot: usize)
        requires
            old(self).wf(),
            old(self)@.entities.len() < usize::MAX,
        ensures
            final(self).wf(),
            final(self)@ == old(self)@.spawned(thing_id),
            final(self)@.has(thing_id),
            slot == final(self)@.slot(thing_id),
    {
        if let Some(s) = self.entity_to_slot.get(&thing_id) {
            proof {
                self.lemma_slot(thing_id);
            }
            return *s;
        }
        let slot = self.entities.len();
        self.entity_to_slot.insert(thing_id, slot);
        self.entities.push(thing_id);
        let ghost mid = self.components@;
        let mut i: usize = 0;
        while i < self.component_ids.len()
            invariant
                i <= self.component_ids@.len(),
                self.entities@ == old(self).entities@.push(thing_id),
                self.entity_to_slot@ == old(self).entity_to_slot@.insert(thing_id, slot),
                slot == old(self).entities@.len(),
                self.component_ids@ == old(self).component_ids@,
                self.component_ids@.no_duplicates(),
                self.components@.dom() == mid.dom(),
                forall|h: u64| #[trigger]
                    self.components@.contains_key(h) <==> self.component_ids@.contains(h),
                forall|k: int|
                    0 <= k < i ==> #[trigger] self.components@[self.component_ids@[k]]@
                        == mid[self.component_ids@[k]]@.push(None),
                forall|k: int|
                    i <= k < self.component_ids@.len() ==> #[trigger] self.components@[self.component_ids@[k]]
                        == mid[self.component_ids@[k]],
            decreases self.component_ids@.len() - i,
        {
            let h = self.component_ids[i];
            let mut col = self.components.remove(&h).unwrap();
            col.append_empty_slot();
            self.components.insert(h, col);
            proof {
                assert forall|k: int| 0 <= k < self.component_ids@.len() && k != i implies self.component_ids@[k] != h by {}
            }
            i = i + 1;
        }
        proof {
            assert forall|h: u64| #[trigger] self.components@.contains_key(h) implies self.components@[h]@ == mid[h]@.push(None) by {
                let k = choose|k: int| 0 <= k < self.component_ids@.len() && self.component_ids@[k] == h;
            }
            assert(final(self)@.columns =~= old(self)@.spawned(thing_id).columns);
            assert(!old(self).entities@.contains(thing_id));
            assert(self.entities@.no_duplicates());
            assert(self.entities@[slot as int] == thing_id);
            assert forall|t: ThingId| #[trigger] self.entity_to_slot@.contains_key(t) <==> self.entities@.contains(t) by {
                if old(self).entities@.contains(t) {
                    let k = choose|k: int| 0 <= k < old(self).entities@.len() && old(self).entities@[k] == t;
                    assert(self.entities@[k] == t);
                }
                if self.entities@.contains(t) && t != thing_id {
                    let k = choose|k: int| 0 <= k < self.entities@.len() && self.entities@[k] == t;
                    assert(old(self).entities@[k] == t);
                }
            }
            lemma_index_of_unique(self.entities@, slot as int);
        }
        slot
    }

    /// Removes `thing_id` by moving the last entity (and its data) into its slot; returns
    /// the freed slot, or `None` when the entity is absent.
    pub fn despawn(&mut self, thing_id: ThingId) -> (r: Option<usize>)
        requires
            old(self).wf(),
        ensures
            final(self).wf(),
            final(self)@ == old(self)@.despawned(thing_id),
            r == (if old(self)@.has(thing_id) {
                Some(old(self)@.slot(thing_id) as usize)
            } else {
                None
            }),
    {
        let slot = match self.entity_to_slot.get(&thing_id) {
            Some(s) => *s,
            None => {
                return None;
            },
        };
        proof {
            self.lemma_slot(thing_id);
        }
        let last_idx = self.entities.len() - 1;
        let last_thing = self.entities[last_idx];
        let ghost mid = self.components@;
        let mut i: usize = 0;
        while i < self.component_ids.len()
            invariant
                i <= self.component_ids@.len(),
                slot < self.entities@.len(),
                self.entities@ == old(self).entities@,
                self.entity_to_slot@ == old(self).entity_to_slot@,
                self.component_ids@ == old(self).component_ids@,
                self.component_ids@.no_duplicates(),
                self.components@.dom() == mid.dom(),
                mid == old(self).components@,
                forall|h: u64| #[trigger]
                    self.components@.contains_key(h) <==> self.component_ids@.contains(h),
                forall|h: u64| #[trigger]
                    mid.contains_key(h) ==> mid[h]@.len() == self.entities@.len(),
                forall|k: int|
                    0 <= k < i ==> #[trigger] self.components@[self.component_ids@[k]]@
                        == swap_removed(mid[self.component_ids@[k]]@, slot as int),
                forall|k: int|
                    i <= k < self.component_ids@.len() ==> #[trigger] self.components@[self.component_ids@[k]]
                        == mid[self.component_ids@[k]],
            decreases self.component_ids@.len() - i,
        {
            let h = self.component_ids[i];
            assert(self.components@.contains_key(h));
            let mut col = self.components.remove(&h).unwrap();
            col.swap_with_last(slot);
            self.components.insert(h, col);
            proof {
                assert forall|k: int| 0 <= k < self.component_ids@.len() && k != i implies self.component_ids@[k] != h by {}
            }
            i = i + 1;
        }
        let ghost ents = self.entities@;
        self.entities.swap_remove(slot);
        if slot < last_idx {
            self.entity_to_slot.insert(last_thing, slot);
        }
        self.entity_to_slot.remove(&thing_id);
        proof {
            assert forall|h: u64| #[trigger] self.components@.contains_key(h) implies self.components@[h]@ == swap_removed(mid[h]@, slot as int) by {
                let k = choose|k: int| 0 <= k < self.component_ids@.len() && self.component_ids@[k] == h;
            }
            assert(final(self)@.columns =~= old(self)@.despawned(thing_id).columns);
            assert(self.entities@ =~= swap_removed(ents, slot as int));
            lemma_swap_removed_no_duplicates(ents, slot as int);
            assert forall|t: ThingId| #[trigger] self.entity_to_slot@.contains_key(t) implies self.entity_to_slot@[t]
                < self.entities@.len() && self.entities@[self.entity_to_slot@[t] as int] == t by {
                if t != last_thing || slot == last_idx {
                    let s = old(self).entity_to_slot@[t];
                    assert(ents[s as int] == t);
                    assert(s != last_idx) by {
                        if s == last_idx {
                            assert(ents[last_idx as int] == last_thing);
                        }
                    }
                    assert(s != slot);
                }
            }
            assert forall|t: ThingId| #[trigger] self.entity_to_slot@.contains_key(t) <==> self.entities@.contains(t) by {
                assert(self.entities@.contains(t) <==> (ents.contains(t) && t != ents[slot as int]));
                if t == last_thing {
                    assert(ents.contains(t));
                }
            }
        }
        Some(slot)
    }

    /// Stores `data` as attribute `attr_hash` of `thing_id`; `None` when the entity is
    /// absent or the attribute has no column here.
    pub fn set_component(&mut self, thing_id: ThingId, attr_hash: u64, data: Vec<u8>) -> (r:
        Option<()>)
        requires
            old(self).wf(),
        ensures
            final(self).wf(),
            final(self)@ == old(self)@.with_component(thing_id, attr_hash, data@),
            r is Some <==> (old(self)@.has(thing_id) && old(self)@.columns.contains_key(attr_hash)),
    {
        let slot = match self.entity_to_slot.get(&thing_id) {
            Some(s) => *s,
            None => {
                return None;
            },
        };
        proof {
            self.lemma_slot(thing_id);
        }
        let mut storage = match self.components.remove(&attr_hash) {
            Some(c) => c,
            None => {
                assert(self.components@ =~= old(self).components@);
                return None;
            },
        };
        let n = self.entities.len();
        assert(slot < n);
        storage.set(slot, data);
        self.components.insert(attr_hash, storage);
        proof {
            assert(padded(old(self).components@[attr_hash]@, slot + 1) == old(self).components@[attr_hash]@);
            assert(final(self)@.columns =~= old(self)@.with_component(thing_id, attr_hash, data@).columns);
        }
        Some(())
    }

    /// The data of attribute `attr_hash` of `thing_id`.
    pub fn get_component(&self, thing_id: ThingId, attr_hash: u64) -> (r: Option<&Vec<u8>>)
        requires
            self.wf(),
        ensures
            ref_view(r) == self@.get(thing_id, attr_hash),
    {
        let slot = match self.entity_to_slot.get(&thing_id) {
            Some(s) => *s,
            None => {
                return None;
            },
        };
        proof {
            self.lemma_slot(thing_id);
        }
        match self.components.get(&attr_hash) {
            Some(storage) => storage.get(slot),
            None => None,
        }
    }

    /// The entities, in slot order.
    pub fn entities(&self) -> (r: &[ThingId])
        ensures
            r@ == self@.entities,
    {
        self.entities.as_slice()
    }

    pub fn entity_count(&self) -> (n: usize)
        ensures
            n == self@.entities.len(),
    {
        self.entities.len()
    }

    /// The present data of attribute `attr_hash`, in slot order; empty without such a column.
    pub fn iter_component(&self, attr_hash: u64) -> (r: Vec<&Vec<u8>>)
        ensures
            r@.map_values(|v: &Vec<u8>| v@) == (if self@.columns.contains_key(attr_hash) {
                present(self@.columns[attr_hash])
            } else {
                Seq::empty()
            }),
    {
        match self.components.get(&attr_hash) {
            Some(storage) => storage.iter(),
            None => {
                let r: Vec<&Vec<u8>> = Vec::new();
                assert(r@.map_values(|v: &Vec<u8>| v@) =~= Seq::empty());
                r
            },
        }
    }

    /// The column of attribute `attr_hash`.
    pub fn component_storage(&self, attr_hash: u64) -> (r: Option<&ComponentStorage>)
        ensures
            r matches Some(c) ==> self@.columns.contains_key(attr_hash) && c@ == self@.columns[attr_hash],
            r is None ==> !self@.columns.contains_key(attr_hash),
    {
        self.components.get(&attr_hash)
    }

    /// Whether the archetype has a column for `attr_hash`.
    pub fn has_component(&self, attr_hash: u64) -> (r: bool)
        ensures
            r == self@.columns.contains_key(attr_hash),
    {
        self.components.contains_key(&attr_hash)
    }
}

/// The keys of a component map, in the map's iteration order.
fn component_keys(m: &HashMap<u64, Vec<u8>>) -> (r: Vec<u64>)
    ensures
        r@.to_set() == m@.dom(),
{
    let ghost ks = vstd::std_specs::hash::spec_keys_iter(m).remaining();
    let mut r: Vec<u64> = Vec::new();
    for k in it: m.keys()
        invariant
            it.seq() == ks,
            r@ == ks.take(it.index()).map_values(|x: &u64| *x),
    {
        r.push(*k);
        assert(ks.take(it.index() + 1).map_values(|x: &u64| *x) =~= ks.take(it.index()).map_values(
            |x: &u64| *x,
        ).push(*k));
    }
    assert(r@ =~= ks.map_values(|x: &u64| *x));
    assert(ks.unref().to_set() == m@.dom());
    assert(ks.unref() =~= ks.map_values(|x: &u64| *x));
    r
}

/// The elements of a hash set, in the set's iteration order.
fn set_elements(s: &HashSet<u64>) -> (r: Vec<u64>)
    ensures
        r@.to_set() == s@,
{
    let ghost ks = vstd::std_specs::hash::spec_hash_keys_iter(s).remaining();
    let mut r: Vec<u64> = Vec::new();
    for k in it: s.iter()
        invariant
            it.seq() == ks,
            r@ == ks.take(it.index()).map_values(|x: &u64| *x),
    {
        r.push(*k);
        assert(ks.take(it.index() + 1).map_values(|x: &u64| *x) =~= ks.take(it.index()).map_values(
            |x: &u64| *x,
        ).push(*k));
    }
    assert(r@ =~= ks.map_values(|x: &u64| *x));
    assert(ks.unref().to_set() == s@);
    assert(ks.unref() =~= ks.map_values(|x: &u64| *x));
    r
}

/// Registers every attribute of `hs`, in order.
pub open spec fn registered_all(a: ArchetypeView, hs: Seq<u64>) -> ArchetypeView
    decreases hs.len(),
{
    if hs.len() == 0 {
        a
    } else {
        registered_all(a, hs.drop_last()).registered(hs.last())
    }
}

/// Stores the data of every attribute of `hs` for entity `t`, in order.
pub open spec fn with_components(
    a: ArchetypeView,
    t: ThingId,
    hs: Seq<u64>,
    comps: Map<u64, Seq<u8>>,
) -> ArchetypeView
    decreases hs.len(),
{
    if hs.len() == 0 {
        a
    } else {
        with_components(a, t, hs.drop_last(), comps).with_component(t, hs.last(), comps[hs.last()])
    }
}

/// Whether an archetype has the output attribute and every `with` attribute, and none
/// of the `without` attributes.
pub open spec fn archetype_matches(
    a: ArchetypeView,
    output_hash: u64,
    with_hashes: Seq<u64>,
    without_hashes: Seq<u64>,
) -> bool {
    &&& a.columns.contains_key(output_hash)
    &&& forall|i: int| 0 <= i < with_hashes.len() ==> a.columns.contains_key(#[trigger] with_hashes[i])
    &&& forall|i: int|
        0 <= i < without_hashes.len() ==> !a.columns.contains_key(#[trigger] without_hashes[i])
}

/// Whether `arch` has the output attribute and every `with` attribute, and none of the
/// `without` attributes.
pub(crate) fn matches_all(arch: &Archetype, output_hash: u64, with_hashes: &[u64], without_hashes: &[u64]) -> (r:
    bool)
    ensures
        r == archetype_matches(arch@, output_hash, with_hashes@, without_hashes@),
{
    if !arch.has_component(output_hash) {
        return false;
    }
    let mut i: usize = 0;
    while i < with_hashes.len()
        invariant
            i <= with_hashes@.len(),
            forall|k: int| 0 <= k < i ==> arch@.columns.contains_key(#[trigger] with_hashes@[k]),
        decreases with_hashes@.len() - i,
    {
        if !arch.has_component(with_hashes[i]) {
            return false;
        }
        i = i + 1;
    }
    let mut j: usize = 0;
    while j < without_hashes.len()
        invariant
            j <= without_hashes@.len(),
            forall|k: int| 0 <= k < j ==> !arch@.columns.contains_key(#[trigger] without_hashes@[k]),
        decreases without_hashes@.len() - j,
    {
        if arch.has_component(without_hashes[j]) {
            return false;
        }
        j = j + 1;
    }
    true
}

/// Mutable access to the archetype stored under `id`: `Some` exactly when the key is
/// present, referring to the stored archetype, and the map afterwards holds whatever the
/// reference was changed to.
fn archetype_entry_mut(m: &mut HashMap<ArchetypeId, Archetype>, id: ArchetypeId) -> (r: Option<
    &mut Archetype,
>)
    ensures
        match r {
            Some(a) => {
                &&& old(m)@.contains_key(id)
                &&& *a == old(m)@[id]
                &&& final(m)@ == old(m)@.insert(id, *final(a))
            },
            None => {
                &&& !old(m)@.contains_key(id)
                &&& final(m)@ == old(m)@
            },
        },
{
    if !m.contains_key(&id) {
        return None;
    }
    match m.entry(id) {
        Entry::Occupied(o) => Some(o.into_mut()),
        Entry::Vacant(_) => None,
    }
}

/// The abstract content of the archetype cache.
pub struct RegistryView {
    /// Every archetype by id.
    pub archetypes: Map<ArchetypeId, ArchetypeView>,
    /// The archetype ids in the order in which they were created.
    pub order: Seq<ArchetypeId>,
    /// The archetype of every cached entity.
    pub entity_archetype: Map<ThingId, ArchetypeId>,
}

impl RegistryView {
    /// Every archetype is well formed, and an entity is cached in an archetype exactly
    /// when it is mapped to that archetype.
    pub open spec fn wf(self) -> bool {
        &&& self.order.no_duplicates()
        &&& self.order.to_set() == self.archetypes.dom()
        &&& forall|a: ArchetypeId| #[trigger]
            self.archetypes.contains_key(a) ==> self.archetypes[a].wf()
        &&& forall|t: ThingId| #[trigger]
            self.entity_archetype.contains_key(t) ==> self.archetypes.contains_key(
                self.entity_archetype[t],
            ) && self.archetypes[self.entity_archetype[t]].has(t)
        &&& forall|a: ArchetypeId, t: ThingId|
            self.archetypes.contains_key(a) && #[trigger] self.archetypes[a].has(t)
                ==> self.entity_archetype.contains_key(t) && self.entity_archetype[t] == a
    }

    /// The cached data of attribute `h` of entity `t`.
    pub open spec fn read(self, t: ThingId, h: u64) -> Option<Seq<u8>> {
        if self.entity_archetype.contains_key(t) && self.archetypes.contains_key(
            self.entity_archetype[t],
        ) {
            self.archetypes[self.entity_archetype[t]].get(t, h)
        } else {
            None
        }
    }

    pub open spec fn created(self, id: ArchetypeId) -> Self {
        if self.archetypes.contains_key(id) {
            self
        } else {
            RegistryView {
                archetypes: self.archetypes.insert(id, ArchetypeView::empty()),
                order: self.order.push(id),
                entity_archetype: self.entity_archetype,
            }
        }
    }

    pub open spec fn removed_entity(self, t: ThingId) -> Self {
        if self.entity_archetype.contains_key(t) {
            let a = self.entity_archetype[t];
            RegistryView {
                archetypes: if self.archetypes.contains_key(a) {
                    self.archetypes.insert(a, self.archetypes[a].despawned(t))
                } else {
                    self.archetypes
                },
                order: self.order,
                entity_archetype: self.entity_archetype.remove(t),
            }
        } else {
            self
        }
    }

    /// `t` leaves any other archetype and is cached, with exactly the attribute set of
    /// `comps`, in the archetype of that set, holding the data of `comps`.
    pub open spec fn with_entity_components(self, t: ThingId, comps: Map<u64, Seq<u8>>) -> Self {
        let hs = canonical_of_dom(comps);
        let new_id = archetype_id_of(comps.dom());
        let left = if self.entity_archetype.contains_key(t) && self.entity_archetype[t] != new_id
            && self.archetypes.contains_key(self.entity_archetype[t]) {
            self.archetypes.insert(
                self.entity_archetype[t],
                self.archetypes[self.entity_archetype[t]].despawned(t),
            )
        } else {
            self.archetypes
        };
        let base = if left.contains_key(new_id) {
            left[new_id]
        } else {
            ArchetypeView::empty()
        };
        let arch = with_components(registered_all(base, hs).spawned(t), t, hs, comps);
        RegistryView {
            archetypes: left.insert(new_id, arch),
            order: if left.contains_key(new_id) {
                self.order
            } else {
                self.order.push(new_id)
            },
            entity_archetype: self.entity_archetype.insert(t, new_id),
        }
    }
}

/// Setting an entity's components keeps the cache well formed.
pub proof fn lemma_with_entity_components_wf(r: RegistryView, t: ThingId, comps: Map<u64, Seq<u8>>)
    requires
        r.wf(),
    ensures
        r.with_entity_components(t, comps).wf(),
{
    let post = r.with_entity_components(t, comps);
    let hs = canonical_of_dom(comps);
    let new_id = archetype_id_of(comps.dom());
    let left = if r.entity_archetype.contains_key(t) && r.entity_archetype[t] != new_id
        && r.archetypes.contains_key(r.entity_archetype[t]) {
        r.archetypes.insert(r.entity_archetype[t], r.archetypes[r.entity_archetype[t]].despawned(t))
    } else {
        r.archetypes
    };
    let base = if left.contains_key(new_id) {
        left[new_id]
    } else {
        ArchetypeView::empty()
    };
    if r.entity_archetype.contains_key(t) && r.archetypes.contains_key(r.entity_archetype[t]) {
        lemma_has_after_steps(r.archetypes[r.entity_archetype[t]], t, 0, Seq::empty(), t);
    }
    assert(base.wf());
    lemma_multi_steps(base, t, hs, comps);
    let reg = registered_all(base, hs);
    lemma_has_after_steps(reg, t, 0, Seq::empty(), t);
    lemma_multi_steps(reg.spawned(t), t, hs, comps);
    assert(post.order.to_set() =~= post.archetypes.dom()) by {
        if !left.contains_key(new_id) {
            assert(post.order.to_set() =~= r.order.to_set().insert(new_id));
        }
    }
    assert forall|u: ThingId| post.archetypes[new_id].has(u) <==> (base.has(u) || u == t) by {
        lemma_has_after_steps(reg, t, 0, Seq::empty(), u);
    }
    if r.entity_archetype.contains_key(t) && r.entity_archetype[t] != new_id {
        let oa = r.entity_archetype[t];
        assert forall|u: ThingId| left[oa].has(u) <==> (r.archetypes[oa].has(u) && u != t) by {
            lemma_has_after_steps(r.archetypes[oa], t, 0, Seq::empty(), u);
        }
        lemma_has_after_steps(r.archetypes[oa], t, 0, Seq::empty(), t);
    }
    assert forall|a: ArchetypeId| #[trigger] post.archetypes.contains_key(a) implies post.archetypes[a].wf() by {
        if a != new_id {
            assert(left.contains_key(a));
            if !(r.entity_archetype.contains_key(t) && r.entity_archetype[t] == a) {
                assert(left[a] == r.archetypes[a]);
            }
        }
    }
    assert forall|u: ThingId| #[trigger] post.entity_archetype.contains_key(u) implies post.archetypes.contains_key(
        post.entity_archetype[u],
    ) && post.archetypes[post.entity_archetype[u]].has(u) by {
        if u != t {
            let a = r.entity_archetype[u];
            assert(r.archetypes[a].has(u));
            if a == new_id {
                assert(base.has(u)) by {
                    if r.entity_archetype.contains_key(t) && r.entity_archetype[t] == a {
                    }
                }
            }
        }
    }
    assert forall|a: ArchetypeId, u: ThingId|
        post.archetypes.contains_key(a) && #[trigger] post.archetypes[a].has(u)
            implies post.entity_archetype.contains_key(u) && post.entity_archetype[u] == a by {
        if a == new_id {
            if u != t {
                assert(base.has(u));
                assert(left.contains_key(new_id));
                assert(r.archetypes[new_id].has(u)) by {
                    if r.entity_archetype.contains_key(t) && r.entity_archetype[t] == new_id {
                    }
                }
            }
        } else {
            if r.entity_archetype.contains_key(t) && r.entity_archetype[t] == a {
                assert(u != t);
                assert(r.archetypes[a].has(u));
            } else {
                assert(left[a] == r.archetypes[a]);
                assert(r.archetypes[a].has(u));
                assert(u != t) by {
                    if u == t {
                        assert(r.entity_archetype[t] == a);
                    }
                }
            }
        }
    }
}

/// Removing an entity keeps the cache well formed, and what it holds for every other
/// entity as it was.
pub proof fn lemma_removed_entity(r: RegistryView, t: ThingId, u: ThingId, h: u64)
    requires
        r.wf(),
    ensures
        r.removed_entity(t).wf(),
        u != t ==> r.removed_entity(t).read(u, h) == r.read(u, h),
{
    let post = r.removed_entity(t);
    if r.entity_archetype.contains_key(t) {
        let oa = r.entity_archetype[t];
        assert forall|v: ThingId| post.archetypes[oa].has(v) <==> (r.archetypes[oa].has(v) && v != t) by {
            lemma_has_after_steps(r.archetypes[oa], t, 0, Seq::empty(), v);
        }
        lemma_has_after_steps(r.archetypes[oa], t, 0, Seq::empty(), t);
        assert(post.archetypes.dom() =~= r.archetypes.dom());
        assert forall|a: ArchetypeId| #[trigger] post.archetypes.contains_key(a) implies post.archetypes[a].wf() by {
            if a != oa {
                assert(post.archetypes[a] == r.archetypes[a]);
            }
        }
        assert forall|v: ThingId| #[trigger] post.entity_archetype.contains_key(v) implies post.archetypes.contains_key(
            post.entity_archetype[v],
        ) && post.archetypes[post.entity_archetype[v]].has(v) by {
            assert(r.archetypes[r.entity_archetype[v]].has(v));
        }
        assert forall|a: ArchetypeId, v: ThingId|
            post.archetypes.contains_key(a) && #[trigger] post.archetypes[a].has(v)
                implies post.entity_archetype.contains_key(v) && post.entity_archetype[v] == a by {
            if a == oa {
                assert(r.archetypes[a].has(v));
            } else {
                assert(r.archetypes[a].has(v));
                if v == t {
                    assert(r.entity_archetype[t] == a);
                }
            }
        }
        if u != t && r.entity_archetype.contains_key(u) && r.entity_archetype[u] == oa {
            lemma_get_preserved(r.archetypes[oa], t, u, h, h, Seq::empty());
        }
    }
}

/// Every archetype can take `extra` more entities.
pub open spec fn room_for(r: RegistryView, extra: int) -> bool {
    &&& extra < usize::MAX
    &&& forall|a: ArchetypeId| #[trigger]
        r.archetypes.contains_key(a) ==> r.archetypes[a].entities.len() + extra < usize::MAX
}

/// Setting one entity's components, or removing it, grows no archetype by more than one entity.
pub proof fn lemma_room_after_step(r: RegistryView, t: ThingId, comps: Map<u64, Seq<u8>>, extra: int)
    requires
        r.wf(),
        room_for(r, extra + 1),
    ensures
        room_for(r.with_entity_components(t, comps), extra),
        room_for(r.removed_entity(t), extra + 1),
{
    let hs = canonical_of_dom(comps);
    let new_id = archetype_id_of(comps.dom());
    let left = if r.entity_archetype.contains_key(t) && r.entity_archetype[t] != new_id
        && r.archetypes.contains_key(r.entity_archetype[t]) {
        r.archetypes.insert(r.entity_archetype[t], r.archetypes[r.entity_archetype[t]].despawned(t))
    } else {
        r.archetypes
    };
    let base = if left.contains_key(new_id) {
        left[new_id]
    } else {
        ArchetypeView::empty()
    };
    assert forall|a: ArchetypeId| #[trigger] left.contains_key(a) implies left[a].entities.len() <= r.archetypes[a].entities.len() by {
    }
    lemma_multi_steps(base, t, hs, comps);
    let reg = registered_all(base, hs);
    lemma_multi_steps(reg.spawned(t), t, hs, comps);
    assert(reg.spawned(t).entities.len() <= base.entities.len() + 1);
    if r.entity_archetype.contains_key(t) {
        let a = r.entity_archetype[t];
        assert(r.archetypes[a].has(t));
        let i = r.archetypes[a].slot(t);
        assert(0 <= i < r.archetypes[a].entities.len());
    }
    let post = r.with_entity_components(t, comps);
    assert forall|a: ArchetypeId| #[trigger] post.archetypes.contains_key(a) implies post.archetypes[a].entities.len() + extra < usize::MAX by {
        if a == new_id {
            assert(post.archetypes[a] == with_components(reg.spawned(t), t, hs, comps));
            if left.contains_key(new_id) {
                assert(r.archetypes.contains_key(new_id));
            }
        } else {
            assert(left.contains_key(a));
        }
    }
}

/// The ascending enumeration of the attribute hashes of a component map.
pub open spec fn canonical_of_dom(comps: Map<u64, Seq<u8>>) -> Seq<u64> {
    crate::ids::canonical(comps.dom())
}

/// The archetype cache: every archetype by id, and the archetype of every cached entity.
pub struct Registry {
    archetypes: HashMap<ArchetypeId, Archetype>,
    archetype_order: Vec<ArchetypeId>,
    entity_archetype: HashMap<ThingId, ArchetypeId>,
}

impl Default for Registry {
    fn default() -> (r: Self)
        ensures
            r.wf(),
            r@.archetypes.is_empty(),
            r@.order.len() == 0,
            r@.entity_archetype.is_empty(),
    {
        Registry::new()
    }
}

impl View for Registry {
    type V = RegistryView;

    closed spec fn view(&self) -> RegistryView {
        RegistryView {
            archetypes: self.archetypes@.map_values(|a: Archetype| a@),
            order: self.archetype_order@,
            entity_archetype: self.entity_archetype@,
        }
    }
}

impl Registry {
    /// The invariant that every operation keeps.
    pub closed spec fn wf(&self) -> bool {
        &&& self@.wf()
        &&& forall|a: ArchetypeId| #[trigger]
            self.archetypes@.contains_key(a) ==> self.archetypes@[a].wf()
    }

    pub proof fn lemma_wf(&self)
        requires
            self.wf(),
        ensures
            self@.wf(),
    {
    }

    pub fn new() -> (r: Self)
        ensures
            r.wf(),
            r@.archetypes.is_empty(),
            r@.order.len() == 0,
            r@.entity_archetype.is_empty(),
    {
        let r = Registry {
            archetypes: HashMap::new(),
            archetype_order: Vec::new(),
            entity_archetype: HashMap::new(),
        };
        assert(r@.archetypes =~= Map::empty());
        assert(r@.order.to_set() =~= Set::empty());
        r
    }

    /// The archetype id of a list of attribute hashes: the digest of the list sorted.
    fn compute_id(hashes: &[u64]) -> (id: ArchetypeId)
        ensures
            id == ids_digest(sort_seq(hashes@)),
    {
        let sorted = sort_ids(hashes);
        crate::ids::digest_ids(sorted.as_slice())
    }

    /// The archetype id of a set of attribute hashes.
    pub fn compute_archetype_id(attrs: &HashSet<u64>) -> (id: ArchetypeId)
        ensures
            id == archetype_id_of(attrs@),
    {
        let elems = set_elements(attrs);
        let sorted = set_from_ids(elems.as_slice());
        archetype_id(&sorted)
    }

    /// Makes sure an archetype exists for the given attribute hashes, and returns its id.
    pub fn create_archetype(&mut self, component_hashes: &[u64]) -> (id: ArchetypeId)
        requires
            old(self).wf(),
        ensures
            final(self).wf(),
            id == ids_digest(sort_seq(component_hashes@)),
            final(self)@ == old(self)@.created(id),
    {
        let id = Self::compute_id(component_hashes);
        if !self.archetypes.contains_key(&id) {
            let ghost pre = self@;
            self.archetypes.insert(id, Archetype::new());
            self.archetype_order.push(id);
            proof {
                assert(self@.archetypes =~= pre.created(id).archetypes);
                assert(self@.order.to_set() =~= pre.order.to_set().insert(id));
                assert forall|a: ArchetypeId, t: ThingId|
                    self@.archetypes.contains_key(a) && #[trigger] self@.archetypes[a].has(t)
                        implies self@.entity_archetype.contains_key(t) && self@.entity_archetype[t] == a by {
                    assert(a != id);
                    assert(pre.archetypes[a].has(t));
                }
            }
        }
        id
    }

    pub fn get_archetype(&self, id: ArchetypeId) -> (r: Option<&Archetype>)
        requires
            self.wf(),
        ensures
            r matches Some(a) ==> self@.archetypes.contains_key(id) && a@ == self@.archetypes[id]
                && a.wf(),
            r is None ==> !self@.archetypes.contains_key(id),
    {
        self.archetypes.get(&id)
    }

    /// Replacing one archetype by a well-formed archetype with the same entities keeps the
    /// cache well formed.
    broadcast proof fn lemma_replaced_wf(r1: Registry, r2: Registry, id: ArchetypeId, a2: Archetype)
        requires
            r1.wf(),
            r1.archetypes@.contains_key(id),
            r2.archetype_order == r1.archetype_order,
            r2.entity_archetype == r1.entity_archetype,
            a2.wf(),
            a2@.entities == r1.archetypes@[id]@.entities,
            #[trigger] r2.archetypes@ == #[trigger] r1.archetypes@.insert(id, a2),
        ensures
            r2.wf(),
    {
        assert(r2.archetypes@.dom() =~= r1.archetypes@.dom());
        assert(r2@.archetypes.dom() =~= r1@.archetypes.dom());
        assert forall|x: ArchetypeId| #[trigger] r2.archetypes@.contains_key(x) implies r2.archetypes@[x].wf() by {
            if x != id {
                assert(r1.archetypes@.contains_key(x));
            }
        }
        assert forall|x: ArchetypeId| #[trigger] r2@.archetypes.contains_key(x) implies r2@.archetypes[x].wf() by {
            if x != id {
                assert(r1@.archetypes.contains_key(x));
            }
        }
        assert forall|x: ArchetypeId, t: ThingId|
            r2@.archetypes.contains_key(x) && #[trigger] r2@.archetypes[x].has(t)
                implies r2@.entity_archetype.contains_key(t) && r2@.entity_archetype[t] == x by {
            assert(r1@.archetypes.contains_key(x));
            assert(r1@.archetypes[x].has(t));
        }
        assert forall|t: ThingId| #[trigger] r2@.entity_archetype.contains_key(t) implies r2@.archetypes.contains_key(
            r2@.entity_archetype[t],
        ) && r2@.archetypes[r2@.entity_archetype[t]].has(t) by {
            assert(r1@.archetypes[r1@.entity_archetype[t]].has(t));
        }
    }

    /// Mutable access to an archetype. Changing through it which entities the archetype
    /// holds can break the agreement between archetypes and the entity map that the other
    /// operations require.
    pub fn get_archetype_mut(&mut self, id: ArchetypeId) -> (r: Option<&mut Archetype>)
        requires
            old(self).wf(),
        ensures
            match r {
                Some(a) => {
                    &&& old(self)@.archetypes.contains_key(id)
                    &&& a@ == old(self)@.archetypes[id]
                    &&& a.wf()
                    &&& final(self)@.archetypes == old(self)@.archetypes.insert(id, final(a)@)
                    &&& final(self)@.order == old(self)@.order
                    &&& final(self)@.entity_archetype == old(self)@.entity_archetype
                    &&& (final(a).wf() && final(a)@.entities == a@.entities) ==> final(self).wf()
                },
                None => {
                    &&& !old(self)@.archetypes.contains_key(id)
                    &&& final(self)@.archetypes == old(self)@.archetypes
                    &&& final(self)@.order == old(self)@.order
                    &&& final(self)@.entity_archetype == old(self)@.entity_archetype
                    &&& final(self).wf()
                },
            },
    {
        proof {
            self.lemma_wf();
        }
        broadcast use Registry::lemma_replaced_wf;

        let r = archetype_entry_mut(&mut self.archetypes, id);
        r
    }

    /// Every archetype with its id, in creation order.
    pub fn all_archetypes(&self) -> (r: Vec<(ArchetypeId, &Archetype)>)
        requires
            self.wf(),
        ensures
            r@.len() == self@.order.len(),
            forall|i: int|
                0 <= i < r@.len() ==> #[trigger] r@[i].0 == self@.order[i] && r@[i].1@
                    == self@.archetypes[self@.order[i]],
    {
        let mut r: Vec<(ArchetypeId, &Archetype)> = Vec::new();
        let mut i: usize = 0;
        while i < self.archetype_order.len()
            invariant
                self.wf(),
                i <= self@.order.len(),
                r@.len() == i,
                forall|j: int|
                    0 <= j < i ==> #[trigger] r@[j].0 == self@.order[j] && r@[j].1@
                        == self@.archetypes[self@.order[j]],
            decreases self@.order.len() - i,
        {
            let id = self.archetype_order[i];
            assert(self@.order.to_set().contains(id));
            let a = self.archetypes.get(&id).unwrap();
            r.push((id, a));
            i = i + 1;
        }
        r
    }

    pub fn archetype_count(&self) -> (n: usize)
        requires
            self.wf(),
        ensures
            n == self@.archetypes.len(),
            self@.archetypes.dom().finite(),
    {
        assert(self@.archetypes.dom() =~= self.archetypes@.dom());
        assert(self.archetypes@.dom().finite());
        self.archetypes.len()
    }

    pub fn entity_archetype_id(&self, thing_id: ThingId) -> (r: Option<ArchetypeId>)
        requires
            self.wf(),
        ensures
            r == (if self@.entity_archetype.contains_key(thing_id) {
                Some(self@.entity_archetype[thing_id])
            } else {
                None
            }),
    {
        match self.entity_archetype.get(&thing_id) {
            Some(a) => Some(*a),
            None => None,
        }
    }

    /// Removes an entity from its archetype and from the cache; no change when it is not cached.
    pub fn remove_entity(&mut self, thing_id: ThingId)
        requires
            old(self).wf(),
        ensures
            final(self).wf(),
            final(self)@ == old(self)@.removed_entity(thing_id),
    {
        let ghost pre = self@;
        if let Some(old_arch_id) = self.entity_archetype.remove(&thing_id) {
            assert(pre.entity_archetype.contains_key(thing_id) && pre.entity_archetype[thing_id]
                == old_arch_id);
            assert(pre.archetypes.contains_key(old_arch_id));
            assert(self.archetypes@.contains_key(old_arch_id));
            let mut arch = self.archetypes.remove(&old_arch_id).unwrap();
            proof {
                assert(arch.wf());
                arch.lemma_wf();
            }
            arch.despawn(thing_id);
            self.archetypes.insert(old_arch_id, arch);
            proof {
                assert(self@.archetypes =~= pre.removed_entity(thing_id).archetypes);
                assert(self@.entity_archetype =~= pre.removed_entity(thing_id).entity_archetype);
                assert forall|u: ThingId| #[trigger] self@.entity_archetype.contains_key(u) implies self@.archetypes.contains_key(
                    self@.entity_archetype[u],
                ) && self@.archetypes[self@.entity_archetype[u]].has(u) by {
                    lemma_has_after_steps(pre.archetypes[old_arch_id], thing_id, 0, Seq::empty(), u);
                }
                assert forall|a: ArchetypeId, u: ThingId|
                    self@.archetypes.contains_key(a) && #[trigger] self@.archetypes[a].has(u)
                        implies self@.entity_archetype.contains_key(u) && self@.entity_archetype[u] == a by {
                    lemma_has_after_steps(pre.archetypes[old_arch_id], thing_id, 0, Seq::empty(), u);
                    if a == old_arch_id {
                        assert(pre.archetypes[a].has(u));
                    }
                }
                assert forall|a: ArchetypeId| #[trigger] self@.archetypes.contains_key(a) implies self@.archetypes[a].wf() by {
                    if a != old_arch_id {
                        assert(pre.archetypes[a].wf());
                    }
                }
            }
        } else {
            assert(self.entity_archetype@ =~= pre.entity_archetype);
        }
    }

    /// Caches `thing_id` with exactly the attributes of `components`: the entity leaves
    /// any archetype of another attribute set, enters (creating it if needed) the archetype
    /// of this set, and its data there becomes the data of `components`.
    pub fn set_entity_components(&mut self, thing_id: ThingId, components: HashMap<u64, Vec<u8>>)
        requires
            old(self).wf(),
            forall|a: ArchetypeId| #[trigger]
                old(self)@.archetypes.contains_key(a) ==> old(self)@.archetypes[a].entities.len()
                    < usize::MAX,
        ensures
            final(self).wf(),
            final(self)@ == old(self)@.with_entity_components(
                thing_id,
                components@.map_values(|v: Vec<u8>| v@),
            ),
    {
        let ghost pre = self@;
        let ghost comps = components@.map_values(|v: Vec<u8>| v@);
        let ghost orig = components@;
        let mut components = components;
        let keys = component_keys(&components);
        let sorted = set_from_ids(keys.as_slice());
        let new_arch_id = archetype_id(&sorted);
        proof {
            crate::ids::lemma_canonical_of(sorted@);
            assert(comps.dom() =~= orig.dom());
            assert(canonical_of_dom(comps) == sorted@);
        }
        let ghost hs = sorted@;
        // Leave the previous archetype.
        let old_arch = match self.entity_archetype.get(&thing_id) {
            Some(a) => Some(*a),
            None => None,
        };
        if let Some(old_arch_id) = old_arch {
            if old_arch_id != new_arch_id {
                assert(pre.entity_archetype.contains_key(thing_id) && pre.entity_archetype[thing_id]
                    == old_arch_id);
                assert(pre.archetypes.contains_key(old_arch_id));
                assert(self.archetypes@.contains_key(old_arch_id));
                let mut arch = self.archetypes.remove(&old_arch_id).unwrap();
                arch.despawn(thing_id);
                self.archetypes.insert(old_arch_id, arch);
            }
        }
        let ghost left = self@.archetypes;
        proof {
            let l2 = if pre.entity_archetype.contains_key(thing_id) && pre.entity_archetype[thing_id]
                != new_arch_id && pre.archetypes.contains_key(pre.entity_archetype[thing_id]) {
                pre.archetypes.insert(
                    pre.entity_archetype[thing_id],
                    pre.archetypes[pre.entity_archetype[thing_id]].despawned(thing_id),
                )
            } else {
                pre.archetypes
            };
            assert(left =~= l2);
        }
        // Enter the archetype of the new attribute set.
        if !self.archetypes.contains_key(&new_arch_id) {
            self.archetypes.insert(new_arch_id, Archetype::new());
            self.archetype_order.push(new_arch_id);
        }
        let ghost base = if left.contains_key(new_arch_id) {
            left[new_arch_id]
        } else {
            ArchetypeView::empty()
        };
        assert(self.archetypes@.contains_key(new_arch_id));
        let mut arch = self.archetypes.remove(&new_arch_id).unwrap();
        assert(arch@ == base);
        let mut i: usize = 0;
        while i < sorted.len()
            invariant
                i <= sorted@.len(),
                sorted@ == hs,
                arch.wf(),
                arch@ == registered_all(base, hs.take(i as int)),
            decreases hs.len() - i,
        {
            arch.register_component(sorted[i]);
            assert(hs.take(i + 1).drop_last() =~= hs.take(i as int));
            i = i + 1;
        }
        assert(hs.take(hs.len() as int) =~= hs);
        proof {
            lemma_multi_steps(base, thing_id, hs, comps);
            if left.contains_key(new_arch_id) {
                if pre.archetypes.contains_key(new_arch_id) {
                    assert(base.entities == pre.archetypes[new_arch_id].entities) by {
                        if pre.entity_archetype.contains_key(thing_id) && pre.entity_archetype[thing_id] != new_arch_id {
                        }
                    }
                }
            }
        }
        arch.spawn(thing_id);
        let ghost spawned = arch@;
        i = 0;
        while i < sorted.len()
            invariant
                i <= sorted@.len(),
                sorted@ == hs,
                crate::ids::strictly_sorted(hs),
                hs.to_set() == orig.dom(),
                comps == orig.map_values(|v: Vec<u8>| v@),
                arch.wf(),
                arch@ == with_components(spawned, thing_id, hs.take(i as int), comps),
                forall|k: int|
                    i <= k < hs.len() ==> #[trigger] components@.contains_key(hs[k])
                        && components@[hs[k]] == orig[hs[k]],
            decreases hs.len() - i,
        {
            let h = sorted[i];
            assert(components@.contains_key(hs[i as int]));
            let data = components.remove(&h).unwrap();
            arch.set_component(thing_id, h, data);
            proof {
                assert(hs.take(i + 1).drop_last() =~= hs.take(i as int));
                assert(hs.to_set().contains(h));
                assert forall|k: int| i + 1 <= k < hs.len() implies #[trigger] components@.contains_key(hs[k])
                    && components@[hs[k]] == orig[hs[k]] by {
                    assert(hs[i as int] < hs[k]);
                }
            }
            i = i + 1;
        }
        assert(hs.take(hs.len() as int) =~= hs);
        self.archetypes.insert(new_arch_id, arch);
        self.entity_archetype.insert(thing_id, new_arch_id);
        proof {
            let post = pre.with_entity_components(thing_id, comps);
            let fin = arch@;
            lemma_multi_steps(base, thing_id, hs, comps);
            let reg = registered_all(base, hs);
            lemma_has_after_steps(reg, thing_id, 0, Seq::empty(), thing_id);
            lemma_multi_steps(reg.spawned(thing_id), thing_id, hs, comps);
            assert(fin == post.archetypes[new_arch_id]);
            assert(self@.archetypes =~= post.archetypes);
            assert(self@.entity_archetype =~= post.entity_archetype);
            assert(self@.order == post.order);
            lemma_with_entity_components_wf(pre, thing_id, comps);
        }
    }

    /// Whether every archetype can take `extra` more entities.
    pub fn has_room(&self, extra: usize) -> (r: bool)
        requires
            self.wf(),
        ensures
            r == room_for(self@, extra as int),
    {
        if extra == usize::MAX {
            return false;
        }
        let mut i: usize = 0;
        while i < self.archetype_order.len()
            invariant
                self.wf(),
                extra < usize::MAX,
                i <= self@.order.len(),
                forall|j: int|
                    0 <= j < i ==> #[trigger] self@.archetypes[self@.order[j]].entities.len() + extra
                        < usize::MAX,
            decreases self@.order.len() - i,
        {
            let id = self.archetype_order[i];
            assert(self@.order.to_set().contains(id));
            let a = self.archetypes.get(&id).unwrap();
            let n = a.entity_count();
            if n >= usize::MAX - extra {
                proof {
                    assert(self@.archetypes.contains_key(id));
                }
                return false;
            }
            i = i + 1;
        }
        proof {
            assert forall|a: ArchetypeId| #[trigger] self@.archetypes.contains_key(a) implies self@.archetypes[a].entities.len() + extra < usize::MAX by {
                assert(self@.order.to_set().contains(a));
                let j = choose|j: int| 0 <= j < self@.order.len() && self@.order[j] == a;
            }
        }
        true
    }

    /// The ids of the archetypes, in creation order, that have the output attribute and
    /// every `with` attribute, and none of the `without` attributes.
    pub fn find_matching_archetypes(
        &self,
        output_hash: u64,
        with_hashes: &[u64],
        without_hashes: &[u64],
    ) -> (r: Vec<ArchetypeId>)
        requires
            self.wf(),
        ensures
            r@ == self@.order.filter(
                |id: ArchetypeId|
                    archetype_matches(self@.archetypes[id], output_hash, with_hashes@, without_hashes@),
            ),
            forall|j: int|
                #![trigger r@[j]]
                0 <= j < r@.len() ==> {
                    &&& self@.order.contains(r@[j])
                    &&& self@.archetypes[r@[j]].columns.contains_key(output_hash)
                    &&& forall|i: int|
                        0 <= i < with_hashes@.len() ==> self@.archetypes[r@[j]].columns.contains_key(
                            #[trigger] with_hashes@[i],
                        )
                    &&& forall|i: int|
                        0 <= i < without_hashes@.len() ==> !self@.archetypes[r@[j]].columns.contains_key(
                            #[trigger] without_hashes@[i],
                        )
                },
            forall|id: ArchetypeId|
                #![trigger self@.order.contains(id)]
                self@.order.contains(id) && self@.archetypes[id].columns.contains_key(output_hash) && (
                forall|i: int|
                    0 <= i < with_hashes@.len() ==> self@.archetypes[id].columns.contains_key(
                        #[trigger] with_hashes@[i],
                    )) && (forall|i: int|
                    0 <= i < without_hashes@.len() ==> !self@.archetypes[id].columns.contains_key(
                        #[trigger] without_hashes@[i],
                    )) ==> r@.contains(id),
    {
        let ghost pred = |id: ArchetypeId|
            archetype_matches(self@.archetypes[id], output_hash, with_hashes@, without_hashes@);
        let mut r: Vec<ArchetypeId> = Vec::new();
        let mut i: usize = 0;
        while i < self.archetype_order.len()
            invariant
                self.wf(),
                i <= self@.order.len(),
                r@ == self@.order.take(i as int).filter(pred),
                pred == (|id: ArchetypeId|
                    archetype_matches(self@.archetypes[id], output_hash, with_hashes@, without_hashes@)),
            decreases self@.order.len() - i,
        {
            let id = self.archetype_order[i];
            assert(self@.order.to_set().contains(id));
            let arch = self.archetypes.get(&id).unwrap();
            let m = matches_all(arch, output_hash, with_hashes, without_hashes);
            proof {
                reveal(Seq::filter);
                assert(arch@ == self@.archetypes[id]);
                assert(m == archetype_matches(self@.archetypes[id], output_hash, with_hashes@, without_hashes@));
                assert(m == pred(id));
                assert(self@.order.take(i + 1).drop_last() =~= self@.order.take(i as int));
                assert(self@.order.take(i + 1).last() == id);
            }
            if m {
                r.push(id);
            }
            i = i + 1;
        }
        assert(self@.order.take(self@.order.len() as int) =~= self@.order);
        proof {
            assert forall|j: int| 0 <= j < r@.len() implies self@.order.contains(#[trigger] r@[j]) && pred(r@[j]) by {
                self@.order.lemma_filter_pred(pred, j);
                assert(r@.contains(r@[j]));
                self@.order.lemma_filter_contains_rev(pred, r@[j]);
            }
            assert forall|id: ArchetypeId| #[trigger] self@.order.contains(id) && pred(id) implies r@.contains(id) by {
                let k = choose|k: int| 0 <= k < self@.order.len() && self@.order[k] == id;
                self@.order.lemma_filter_contains(pred, k);
            }
        }
        r
    }

    /// The cached data of attribute `attr_hash` of `thing_id`.
    pub fn read_component(&self, thing_id: ThingId, attr_hash: u64) -> (r: Option<&Vec<u8>>)
        requires
            self.wf(),
        ensures
            ref_view(r) == self@.read(thing_id, attr_hash),
    {
        let arch_id = match self.entity_archetype.get(&thing_id) {
            Some(a) => *a,
            None => {
                return None;
            },
        };
        let archetype = match self.archetypes.get(&arch_id) {
            Some(a) => a,
            None => {
                return None;
            },
        };
        archetype.get_component(thing_id, attr_hash)
    }
}

pub proof fn lemma_has_after_steps(a: ArchetypeView, t: ThingId, h: u64, v: Seq<u8>, u: ThingId)
    requires
        a.wf(),
    ensures
        a.registered(h).wf(),
        a.registered(h).entities == a.entities,
        a.with_component(t, h, v).wf(),
        a.with_component(t, h, v).entities == a.entities,
        a.spawned(t).wf(),
        a.spawned(t).has(u) <==> (a.has(u) || u == t),
        a.despawned(t).wf(),
        a.despawned(t).has(u) <==> (a.has(u) && u != t),
{
    if !a.has(t) {
        assert(a.spawned(t).entities.no_duplicates());
        assert(a.spawned(t).has(u) <==> (a.has(u) || u == t)) by {
            let e = a.entities.push(t);
            if e.contains(u) && u != t {
                let k = choose|k: int| 0 <= k < e.len() && e[k] == u;
                assert(a.entities[k] == u);
            }
            if a.has(u) {
                let k = choose|k: int| 0 <= k < a.entities.len() && a.entities[k] == u;
                assert(e[k] == u);
            }
            if u == t {
                assert(e[a.entities.len() as int] == u);
            }
        }
    }
    if a.has(t) {
        let i = a.slot(t);
        assert(0 <= i < a.entities.len() && a.entities[i] == t);
        lemma_swap_removed_no_duplicates(a.entities, i);
        assert forall|h2: u64| #[trigger] a.despawned(t).columns.contains_key(h2) implies a.despawned(t).columns[h2].len() == a.despawned(t).entities.len() by {
            assert(a.columns[h2].len() == a.entities.len());
        }
    }
    if a.has(t) && a.columns.contains_key(h) {
        assert forall|h2: u64| #[trigger] a.with_component(t, h, v).columns.contains_key(h2) implies a.with_component(t, h, v).columns[h2].len() == a.entities.len() by {
            if h2 != h {
                assert(a.columns[h2].len() == a.entities.len());
            }
        }
    }
    if !a.columns.contains_key(h) {
        assert forall|h2: u64| #[trigger] a.registered(h).columns.contains_key(h2) implies a.registered(h).columns[h2].len() == a.entities.len() by {
            if h2 != h {
                assert(a.columns[h2].len() == a.entities.len());
            }
        }
    }
}

pub proof fn lemma_multi_steps(a: ArchetypeView, t: ThingId, hs: Seq<u64>, comps: Map<u64, Seq<u8>>)
    requires
        a.wf(),
    ensures
        registered_all(a, hs).wf(),
        registered_all(a, hs).entities == a.entities,
        with_components(a, t, hs, comps).wf(),
        with_components(a, t, hs, comps).entities == a.entities,
    decreases hs.len(),
{
    if hs.len() > 0 {
        lemma_multi_steps(a, t, hs.drop_last(), comps);
        lemma_has_after_steps(registered_all(a, hs.drop_last()), t, hs.last(), comps[hs.last()], t);
        lemma_has_after_steps(with_components(a, t, hs.drop_last(), comps), t, hs.last(), comps[hs.last()], t);
    }
}

/// Where an entity sits after each single-archetype step, and that no step but the
/// one writing `t` changes the data of another entity `u`.
pub proof fn lemma_get_preserved(
    a: ArchetypeView,
    t: ThingId,
    u: ThingId,
    h: u64,
    g: u64,
    v: Seq<u8>,
)
    requires
        a.wf(),
        u != t,
    ensures
        a.registered(g).get(u, h) == a.get(u, h),
        a.spawned(t).get(u, h) == a.get(u, h),
        a.with_component(t, g, v).get(u, h) == a.get(u, h),
        a.despawned(t).get(u, h) == a.get(u, h),
{
    lemma_has_after_steps(a, t, g, v, u);
    if a.has(u) {
        let k = a.slot(u);
        assert(0 <= k < a.entities.len() && a.entities[k] == u);
        // registered: a new column of empty slots, so a missing column and an empty slot agree.
        // spawned: `u` keeps its index.
        if !a.has(t) {
            let e = a.entities.push(t);
            assert(e[k] == u);
            assert(a.spawned(t).entities.no_duplicates());
            lemma_index_of_unique(e, k);
        }
        // with_component: only the slot of `t` changes.
        if a.has(t) && a.columns.contains_key(g) {
            let i = a.slot(t);
            assert(0 <= i < a.entities.len() && a.entities[i] == t);
            assert(i != k);
        }
        // despawned: `u` keeps its index, or moves from the last index into the freed one.
        if a.has(t) {
            let i = a.slot(t);
            assert(0 <= i < a.entities.len() && a.entities[i] == t);
            let n = a.entities.len() - 1;
            let e = swap_removed(a.entities, i);
            lemma_swap_removed_no_duplicates(a.entities, i);
            let nk = if k == n { i } else { k };
            assert(e[nk] == u);
            lemma_index_of_unique(e, nk);
            if a.columns.contains_key(h) {
                assert(a.columns[h].len() == a.entities.len());
                assert(swap_removed(a.columns[h], i)[nk] == a.columns[h][k]);
            }
        }
    } else {
        if !a.has(t) {
            assert(!a.spawned(t).has(u));
        }
    }
}

pub proof fn lemma_get_preserved_multi(
    a: ArchetypeView,
    t: ThingId,
    u: ThingId,
    h: u64,
    hs: Seq<u64>,
    comps: Map<u64, Seq<u8>>,
)
    requires
        a.wf(),
        u != t,
    ensures
        registered_all(a, hs).get(u, h) == a.get(u, h),
        with_components(a, t, hs, comps).get(u, h) == a.get(u, h),
    decreases hs.len(),
{
    if hs.len() > 0 {
        lemma_get_preserved_multi(a, t, u, h, hs.drop_last(), comps);
        lemma_multi_steps(a, t, hs.drop_last(), comps);
        lemma_get_preserved(registered_all(a, hs.drop_last()), t, u, h, hs.last(), Seq::empty());
        lemma_get_preserved(
            with_components(a, t, hs.drop_last(), comps),
            t,
            u,
            h,
            hs.last(),
            comps[hs.last()],
        );
    }
}

/// After the data of every attribute of `hs` is written for `t`, reading one of them
/// gives what was written, provided the entity is present and has a column for it.
pub proof fn lemma_with_components_get(
    a: ArchetypeView,
    t: ThingId,
    hs: Seq<u64>,
    comps: Map<u64, Seq<u8>>,
    h: u64,
)
    requires
        a.wf(),
        a.has(t),
        a.columns.contains_key(h),
        hs.contains(h),
    ensures
        with_components(a, t, hs, comps).get(t, h) == Some(comps[h]),
    decreases hs.len(),
{
    lemma_multi_steps(a, t, hs, comps);
    let prev = with_components(a, t, hs.drop_last(), comps);
    lemma_multi_steps(a, t, hs.drop_last(), comps);
    assert(prev.has(t));
    assert(prev.columns.dom() == a.columns.dom()) by {
        lemma_with_components_columns(a, t, hs.drop_last(), comps);
    }
    let i = prev.slot(t);
    assert(0 <= i < prev.entities.len() && prev.entities[i] == t);
    if hs.last() == h {
        assert(prev.columns[h].len() == prev.entities.len());
    } else {
        let k = choose|k: int| 0 <= k < hs.len() && hs[k] == h;
        assert(hs.drop_last()[k] == h);
        lemma_with_components_get(a, t, hs.drop_last(), comps, h);
    }
}

pub proof fn lemma_with_components_columns(
    a: ArchetypeView,
    t: ThingId,
    hs: Seq<u64>,
    comps: Map<u64, Seq<u8>>,
)
    ensures
        with_components(a, t, hs, comps).columns.dom() == a.columns.dom(),
    decreases hs.len(),
{
    if hs.len() > 0 {
        lemma_with_components_columns(a, t, hs.drop_last(), comps);
        let p = with_components(a, t, hs.drop_last(), comps);
        assert(p.with_component(t, hs.last(), comps[hs.last()]).columns.dom() =~= p.columns.dom());
    }
}

pub proof fn lemma_registered_all_columns(a: ArchetypeView, hs: Seq<u64>, h: u64)
    ensures
        registered_all(a, hs).columns.contains_key(h) <==> (a.columns.contains_key(h)
            || hs.contains(h)),
    decreases hs.len(),
{
    if hs.len() > 0 {
        lemma_registered_all_columns(a, hs.drop_last(), h);
        if hs.contains(h) && hs.last() != h {
            let k = choose|k: int| 0 <= k < hs.len() && hs[k] == h;
            assert(hs.drop_last()[k] == h);
        }
        if hs.drop_last().contains(h) {
            let k = choose|k: int| 0 <= k < hs.drop_last().len() && hs.drop_last()[k] == h;
            assert(hs[k] == h);
        }
    }
}

/// Law: removing an entity from an archetype leaves the data of every other entity as it was.
pub proof fn law_despawn_keeps_others(a: ArchetypeView, t: ThingId, u: ThingId, h: u64)
    requires
        a.wf(),
        u != t,
    ensures
        a.despawned(t).get(u, h) == a.get(u, h),
        a.despawned(t).has(u) == a.has(u),
        !a.despawned(t).has(t),
{
    lemma_get_preserved(a, t, u, h, h, Seq::empty());
    lemma_has_after_steps(a, t, h, Seq::empty(), u);
    lemma_has_after_steps(a, t, h, Seq::empty(), t);
}

/// Law: adding an entity that is already present changes nothing; adding a new one gives
/// it no data and leaves every other entity's data as it was.
pub proof fn law_spawn(a: ArchetypeView, t: ThingId, u: ThingId, h: u64)
    requires
        a.wf(),
    ensures
        a.spawned(t).spawned(t) == a.spawned(t),
        a.spawned(t).has(t),
        !a.has(t) ==> a.spawned(t).get(t, h) is None,
        u != t ==> a.spawned(t).get(u, h) == a.get(u, h),
{
    lemma_has_after_steps(a, t, h, Seq::empty(), t);
    if u != t {
        lemma_get_preserved(a, t, u, h, h, Seq::empty());
    }
    if !a.has(t) {
        let e = a.entities.push(t);
        assert(e[a.entities.len() as int] == t);
        assert(a.spawned(t).entities.no_duplicates());
        lemma_index_of_unique(e, a.entities.len() as int);
    }
}

/// Law: after an entity's components are set, the cache maps the entity to the archetype
/// of exactly that attribute set, and reading any of those attributes gives the data set.
pub proof fn law_set_then_read(r: RegistryView, t: ThingId, comps: Map<u64, Seq<u8>>, h: u64)
    requires
        r.wf(),
        comps.dom().finite(),
        comps.contains_key(h),
    ensures
        r.with_entity_components(t, comps).entity_archetype[t] == archetype_id_of(comps.dom()),
        r.with_entity_components(t, comps).read(t, h) == Some(comps[h]),
{
    let post = r.with_entity_components(t, comps);
    let hs = canonical_of_dom(comps);
    let new_id = archetype_id_of(comps.dom());
    crate::ids::lemma_canonical_exists(comps.dom());
    assert(hs.to_set() == comps.dom());
    assert(hs.contains(h)) by {
        assert(hs.to_set().contains(h));
    }
    let left = if r.entity_archetype.contains_key(t) && r.entity_archetype[t] != new_id
        && r.archetypes.contains_key(r.entity_archetype[t]) {
        r.archetypes.insert(r.entity_archetype[t], r.archetypes[r.entity_archetype[t]].despawned(t))
    } else {
        r.archetypes
    };
    let base = if left.contains_key(new_id) {
        left[new_id]
    } else {
        ArchetypeView::empty()
    };
    assert(base.wf()) by {
        if left.contains_key(new_id) && r.entity_archetype.contains_key(t) && r.entity_archetype[t]
            == new_id {
        }
        if r.entity_archetype.contains_key(t) && r.archetypes.contains_key(r.entity_archetype[t]) {
            lemma_has_after_steps(r.archetypes[r.entity_archetype[t]], t, 0, Seq::empty(), t);
        }
    }
    let reg = registered_all(base, hs);
    lemma_multi_steps(base, t, hs, comps);
    lemma_has_after_steps(reg, t, 0, Seq::empty(), t);
    lemma_registered_all_columns(base, hs, h);
    assert(reg.spawned(t).columns.contains_key(h));
    lemma_with_components_get(reg.spawned(t), t, hs, comps, h);
}

/// Law: setting the components of one entity leaves what the cache holds for every other
/// entity as it was.
pub proof fn law_set_isolated(
    r: RegistryView,
    t: ThingId,
    comps: Map<u64, Seq<u8>>,
    u: ThingId,
    h: u64,
)
    requires
        r.wf(),
        u != t,
    ensures
        r.with_entity_components(t, comps).read(u, h) == r.read(u, h),
{
    let post = r.with_entity_components(t, comps);
    let hs = canonical_of_dom(comps);
    let new_id = archetype_id_of(comps.dom());
    let left = if r.entity_archetype.contains_key(t) && r.entity_archetype[t] != new_id
        && r.archetypes.contains_key(r.entity_archetype[t]) {
        r.archetypes.insert(r.entity_archetype[t], r.archetypes[r.entity_archetype[t]].despawned(t))
    } else {
        r.archetypes
    };
    let base = if left.contains_key(new_id) {
        left[new_id]
    } else {
        ArchetypeView::empty()
    };
    if r.entity_archetype.contains_key(t) && r.archetypes.contains_key(r.entity_archetype[t]) {
        lemma_get_preserved(r.archetypes[r.entity_archetype[t]], t, u, h, h, Seq::empty());
        lemma_has_after_steps(r.archetypes[r.entity_archetype[t]], t, 0, Seq::empty(), t);
    }
    if r.entity_archetype.contains_key(u) {
        let a = r.entity_archetype[u];
        if a == new_id {
            assert(base.wf());
            lemma_multi_steps(base, t, hs, comps);
            let reg = registered_all(base, hs);
            lemma_get_preserved_multi(base, t, u, h, hs, comps);
            lemma_get_preserved(reg, t, u, h, h, Seq::empty());
            lemma_has_after_steps(reg, t, 0, Seq::empty(), t);
            lemma_get_preserved_multi(reg.spawned(t), t, u, h, hs, comps);
        }
    } else {
        assert(!post.entity_archetype.contains_key(u));
    }
}

/// Law: once an entity is removed from the cache, reading any of its attributes gives nothing.
pub proof fn law_remove_then_read(r: RegistryView, t: ThingId, h: u64)
    requires
        r.wf(),
    ensures
        r.removed_entity(t).read(t, h) is None,
        !r.removed_entity(t).entity_archetype.contains_key(t),
{
}

/// Law: after an entity's components are set, an attribute outside the set reads as
/// nothing, unless the archetype of the set already had a column for it (which only an
/// archetype of another attribute set with the same id could have given it).
pub proof fn law_set_then_read_absent(r: RegistryView, t: ThingId, comps: Map<u64, Seq<u8>>, h: u64)
    requires
        r.wf(),
        comps.dom().finite(),
        !comps.contains_key(h),
        !r.archetypes.contains_key(archetype_id_of(comps.dom())) || !r.archetypes[archetype_id_of(
            comps.dom(),
        )].columns.contains_key(h),
    ensures
        r.with_entity_components(t, comps).read(t, h) is None,
{
    let hs = canonical_of_dom(comps);
    let new_id = archetype_id_of(comps.dom());
    crate::ids::lemma_canonical_exists(comps.dom());
    assert(!hs.contains(h)) by {
        if hs.contains(h) {
            assert(hs.to_set().contains(h));
        }
    }
    let left = if r.entity_archetype.contains_key(t) && r.entity_archetype[t] != new_id
        && r.archetypes.contains_key(r.entity_archetype[t]) {
        r.archetypes.insert(r.entity_archetype[t], r.archetypes[r.entity_archetype[t]].despawned(t))
    } else {
        r.archetypes
    };
    let base = if left.contains_key(new_id) {
        left[new_id]
    } else {
        ArchetypeView::empty()
    };
    assert(!base.columns.contains_key(h));
    let reg = registered_all(base, hs);
    lemma_registered_all_columns(base, hs, h);
    assert(!reg.spawned(t).columns.contains_key(h));
    lemma_with_components_columns(reg.spawned(t), t, hs, comps);
}

/// Law: no operation on the cache drops an archetype: creating one adds its id, setting
/// an entity's components adds the id of their attribute set, and removing an entity
/// keeps the same archetypes (an emptied archetype stays).
pub proof fn law_archetypes_kept(r: RegistryView, id: ArchetypeId, t: ThingId, comps: Map<u64, Seq<u8>>)
    ensures
        r.created(id).archetypes.dom() == r.archetypes.dom().insert(id),
        r.removed_entity(t).archetypes.dom() == r.archetypes.dom(),
        r.with_entity_components(t, comps).archetypes.dom() == r.archetypes.dom().insert(
            archetype_id_of(comps.dom()),
        ),
{
    assert(r.created(id).archetypes.dom() =~= r.archetypes.dom().insert(id));
    assert(r.removed_entity(t).archetypes.dom() =~= r.archetypes.dom());
    assert(r.with_entity_components(t, comps).archetypes.dom() =~= r.archetypes.dom().insert(
        archetype_id_of(comps.dom()),
    ));
}

/// The data of attribute `h` that the entities of `es` read in `a`, in the order of
/// `es`, skipping entities that read nothing.
pub open spec fn entity_reads(a: ArchetypeView, es: Seq<ThingId>, h: u64) -> Seq<Seq<u8>>
    decreases es.len(),
{
    if es.len() == 0 {
        Seq::empty()
    } else {
        let rest = entity_reads(a, es.drop_last(), h);
        match a.get(es.last(), h) {
            Some(v) => rest.push(v),
            None => rest,
        }
    }
}

proof fn lemma_entity_reads_prefix(a: ArchetypeView, h: u64, n: int)
    requires
        a.wf(),
        0 <= n <= a.entities.len(),
    ensures
        entity_reads(a, a.entities.take(n), h) == (if a.columns.contains_key(h) {
            present(a.columns[h].take(n))
        } else {
            Seq::empty()
        }),
    decreases n,
{
    if n > 0 {
        lemma_entity_reads_prefix(a, h, n - 1);
        let es = a.entities.take(n);
        assert(es.drop_last() =~= a.entities.take(n - 1));
        assert(es.last() == a.entities[n - 1]);
        lemma_index_of_unique(a.entities, n - 1);
        if a.columns.contains_key(h) {
            let c = a.columns[h];
            assert(c.take(n).drop_last() =~= c.take(n - 1));
            assert(c.take(n).last() == c[n - 1]);
        }
    } else {
        assert(a.entities.take(0) =~= Seq::<ThingId>::empty());
        if a.columns.contains_key(h) {
            assert(a.columns[h].take(0) =~= Seq::<Option<Seq<u8>>>::empty());
        }
    }
}

/// Law: the data `iter_component` gives for an attribute is what the archetype's
/// entities read for it, in entity order, skipping entities that read nothing; nothing
/// at all when the attribute has no column.
pub proof fn law_iter_component_reads(a: ArchetypeView, h: u64)
    requires
        a.wf(),
    ensures
        entity_reads(a, a.entities, h) == (if a.columns.contains_key(h) {
            present(a.columns[h])
        } else {
            Seq::empty()
        }),
{
    lemma_entity_reads_prefix(a, h, a.entities.len() as int);
    assert(a.entities.take(a.entities.len() as int) =~= a.entities);
    if a.columns.contains_key(h) {
        assert(a.columns[h].take(a.entities.len() as int) =~= a.columns[h]);
    }
}

/// One call that changes the cache: `create_archetype`, `set_entity_components` or
/// `remove_entity`, by its arguments as plain values.
pub enum RegistryOp {
    Create(Seq<u64>),
    SetComponents(ThingId, Map<u64, Seq<u8>>),
    Remove(ThingId),
}

/// The cache after one call.
pub open spec fn registry_step(r: RegistryView, op: RegistryOp) -> RegistryView {
    match op {
        RegistryOp::Create(hs) => r.created(ids_digest(sort_seq(hs))),
        RegistryOp::SetComponents(t, comps) => r.with_entity_components(t, comps),
        RegistryOp::Remove(t) => r.removed_entity(t),
    }
}

/// The cache after a sequence of calls, in order.
pub open spec fn registry_run(r: RegistryView, ops: Seq<RegistryOp>) -> RegistryView
    decreases ops.len(),
{
    if ops.len() == 0 {
        r
    } else {
        registry_step(registry_run(r, ops.drop_last()), ops.last())
    }
}

/// The archetype ids that a sequence of calls creates or enters.
pub open spec fn created_ids(ops: Seq<RegistryOp>) -> Set<ArchetypeId>
    decreases ops.len(),
{
    if ops.len() == 0 {
        Set::empty()
    } else {
        let rest = created_ids(ops.drop_last());
        match ops.last() {
            RegistryOp::Create(hs) => rest.insert(ids_digest(sort_seq(hs))),
            RegistryOp::SetComponents(_, comps) => rest.insert(archetype_id_of(comps.dom())),
            RegistryOp::Remove(_) => rest,
        }
    }
}

/// Law: after any sequence of calls, the cache holds exactly the archetypes it held
/// before and those the calls created or entered; removing entities drops none, so the
/// archetype count never decreases along the sequence.
pub proof fn law_registry_run_archetypes(r: RegistryView, ops: Seq<RegistryOp>, i: int, j: int)
    requires
        0 <= i <= j <= ops.len(),
    ensures
        registry_run(r, ops).archetypes.dom() == r.archetypes.dom().union(created_ids(ops)),
        registry_run(r, ops.take(i)).archetypes.dom().subset_of(registry_run(r, ops.take(j)).archetypes.dom()),
    decreases ops.len(),
{
    lemma_registry_run_dom(r, ops);
    lemma_registry_run_dom(r, ops.take(i));
    lemma_registry_run_dom(r, ops.take(j));
    lemma_created_ids_prefix(ops.take(j), i);
    assert(ops.take(j).take(i) =~= ops.take(i));
}

proof fn lemma_registry_run_dom(r: RegistryView, ops: Seq<RegistryOp>)
    ensures
        registry_run(r, ops).archetypes.dom() == r.archetypes.dom().union(created_ids(ops)),
    decreases ops.len(),
{
    if ops.len() == 0 {
        assert(r.archetypes.dom().union(Set::empty()) =~= r.archetypes.dom());
    } else {
        lemma_registry_run_dom(r, ops.drop_last());
        let prev = registry_run(r, ops.drop_last());
        law_archetypes_kept(prev, 0, 0, Map::empty());
        match ops.last() {
            RegistryOp::Create(hs) => {
                law_archetypes_kept(prev, ids_digest(sort_seq(hs)), 0, Map::empty());
            },
            RegistryOp::SetComponents(t, comps) => {
                law_archetypes_kept(prev, 0, t, comps);
            },
            RegistryOp::Remove(t) => {
                law_archetypes_kept(prev, 0, t, Map::empty());
            },
        }
        assert(registry_run(r, ops).archetypes.dom() =~= r.archetypes.dom().union(created_ids(ops)));
    }
}

proof fn lemma_created_ids_prefix(ops: Seq<RegistryOp>, i: int)
    requires
        0 <= i <= ops.len(),
    ensures
        created_ids(ops.take(i)).subset_of(created_ids(ops)),
    decreases ops.len(),
{
    if i < ops.len() {
        lemma_created_ids_prefix(ops.drop_last(), i);
        assert(ops.drop_last().take(i) =~= ops.take(i));
    } else {
        assert(ops.take(i) =~= ops);
    }
}

} // verus!

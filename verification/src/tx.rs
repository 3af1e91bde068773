//! The write buffer of a transaction.
//!
//! A transaction reads committed state only through what the caller fetches for it:
//! when an operation needs the stored attribute set of an entity, or a stored value,
//! that it has not been given, it returns the [`Fetch`] it needs and changes nothing;
//! the caller supplies the answer and repeats the operation. Every write and delete is
//! buffered in one log, in the order the operations made them, and the caller commits
//! [`TxCore::ops`] as one batch, in that order.
use crate::bytemap::{opt_bytes, ByteMap};
use crate::ids::{
    archetype_id, archetype_id_of, canonical, lemma_canonical_of, set_contains, set_from_ids,
    set_insert, set_remove, strictly_sorted,
};
use crate::storage::{
    attr_index_key, attr_index_key_seq, data_key, edge_key, edge_key_seq, entity_attr_key,
    entity_attr_key_seq, entity_archetype_key_seq, entity_to_archetype_key, id_at, le64,
    parse_edge_target, reverse_edge_key, reverse_edge_key_seq, u64_value, KeyEncoder,
};
use crate::archetype::{lemma_room_after_step, room_for, Registry, RegistryView};
use std::collections::HashMap;
use vstd::prelude::*;
use vstd::slice::slice_to_vec;

verus! {

broadcast use vstd::std_specs::hash::group_hash_axioms, vstd::seq_lib::group_seq_properties;

/// What an operation needs from committed state before it can proceed.
pub enum Fetch {
    /// The stored attribute hashes of this entity.
    Attrs(u128),
    /// The stored value under this key (`None` when absent).
    Data(Vec<u8>),
}

/// A [`Fetch`] as plain values.
pub enum FetchView {
    Attrs(u128),
    Data(Seq<u8>),
}

impl View for Fetch {
    type V = FetchView;

    open spec fn view(&self) -> FetchView {
        match self {
            Fetch::Attrs(t) => FetchView::Attrs(*t),
            Fetch::Data(k) => FetchView::Data(k@),
        }
    }
}

/// One buffered operation of a transaction: a delete or a write of a key.
pub enum BatchOp {
    Delete(Vec<u8>),
    Put(Vec<u8>, Vec<u8>),
}

/// A [`BatchOp`] as plain values.
pub enum BatchOpView {
    Delete(Seq<u8>),
    Put(Seq<u8>, Seq<u8>),
}

impl View for BatchOp {
    type V = BatchOpView;

    open spec fn view(&self) -> BatchOpView {
        match self {
            BatchOp::Delete(k) => BatchOpView::Delete(k@),
            BatchOp::Put(k, v) => BatchOpView::Put(k@, v@),
        }
    }
}

pub open spec fn ops_view(ops: Seq<BatchOp>) -> Seq<BatchOpView> {
    ops.map_values(|o: BatchOp| o@)
}

/// The abstract state of a transaction.
pub struct TxView {
    /// Every buffered write and delete, in the order the operations made them.
    pub log: Seq<BatchOpView>,
    /// The attribute set of every entity the transaction has looked at.
    pub attrs: Map<u128, Set<u64>>,
    /// Those entities, in the order in which they were first looked at.
    pub touched: Seq<u128>,
    /// The latest buffered value of every data and edge key written (`None`: deleted).
    pub pending: Map<Seq<u8>, Option<Seq<u8>>>,
    /// The committed values fetched so far (`None`: absent).
    pub fetched: Map<Seq<u8>, Option<Seq<u8>>>,
}

impl TxView {
    pub open spec fn known(self, k: Seq<u8>) -> bool {
        self.pending.contains_key(k) || self.fetched.contains_key(k)
    }

    /// The value of a key as the transaction sees it: its own latest write, else the
    /// committed value.
    pub open spec fn read(self, k: Seq<u8>) -> Option<Seq<u8>> {
        if self.pending.contains_key(k) {
            self.pending[k]
        } else {
            self.fetched[k]
        }
    }

    pub open spec fn buf_put(self, k: Seq<u8>, v: Seq<u8>) -> Self {
        TxView { pending: self.pending.insert(k, Some(v)), log: self.log.push(BatchOpView::Put(k, v)), ..self }
    }

    pub open spec fn buf_delete(self, k: Seq<u8>) -> Self {
        TxView { pending: self.pending.insert(k, None), log: self.log.push(BatchOpView::Delete(k)), ..self }
    }

    pub open spec fn push_put(self, k: Seq<u8>, v: Seq<u8>) -> Self {
        TxView { log: self.log.push(BatchOpView::Put(k, v)), ..self }
    }

    pub open spec fn push_delete(self, k: Seq<u8>) -> Self {
        TxView { log: self.log.push(BatchOpView::Delete(k)), ..self }
    }

    pub open spec fn with_attrs(self, t: u128, s: Set<u64>) -> Self {
        TxView { attrs: self.attrs.insert(t, s), ..self }
    }

    /// The first data key of `gs` under archetype `arch` whose value is not known yet.
    pub open spec fn first_missing(self, arch: u64, t: u128, gs: Seq<u64>) -> Option<Seq<u8>>
        decreases gs.len(),
    {
        if gs.len() == 0 {
            None
        } else if !self.known(data_key(arch, gs[0], t)) {
            Some(data_key(arch, gs[0], t))
        } else {
            self.first_missing(arch, t, gs.drop_first())
        }
    }

    /// Copies the data of every attribute of `gs` from archetype `from` to archetype `to`,
    /// skipping attributes that hold no data.
    pub open spec fn migrated(self, from: u64, to: u64, t: u128, gs: Seq<u64>) -> Self
        decreases gs.len(),
    {
        if gs.len() == 0 {
            self
        } else {
            let v = self.migrated(from, to, t, gs.drop_last());
            match v.read(data_key(from, gs.last(), t)) {
                Some(d) => v.buf_put(data_key(to, gs.last(), t), d),
                None => v,
            }
        }
    }

    /// What `add` (and `set` of a missing attribute) still needs.
    pub open spec fn add_need(self, t: u128, h: u64) -> Option<FetchView> {
        if !self.attrs.contains_key(t) {
            Some(FetchView::Attrs(t))
        } else if self.attrs[t].contains(h) || self.attrs[t].is_empty() {
            None
        } else {
            match self.first_missing(archetype_id_of(self.attrs[t]), t, canonical(self.attrs[t])) {
                Some(k) => Some(FetchView::Data(k)),
                None => None,
            }
        }
    }

    /// Attribute `h` with data `v` added to entity `t`: the entity moves to the archetype
    /// of its grown attribute set, taking its existing data along.
    pub open spec fn added(self, t: u128, h: u64, v: Seq<u8>) -> Self {
        let a = self.attrs[t];
        if a.contains(h) {
            self
        } else {
            let n = a.insert(h);
            let na = archetype_id_of(n);
            let m = if a.is_empty() {
                self
            } else {
                self.migrated(archetype_id_of(a), na, t, canonical(a))
            };
            m.buf_put(data_key(na, h, t), v).push_put(entity_archetype_key_seq(t), le64(na)).with_attrs(
                t,
                n,
            ).push_put(entity_attr_key_seq(t, h), le64(h)).push_put(
                attr_index_key_seq(h, t),
                Seq::empty(),
            )
        }
    }

    pub open spec fn set_need(self, t: u128, h: u64) -> Option<FetchView> {
        if self.attrs.contains_key(t) && self.attrs[t].contains(h) {
            None
        } else {
            self.add_need(t, h)
        }
    }

    /// Attribute `h` of entity `t` set to `v`: overwritten in place when present, else added.
    pub open spec fn set_value(self, t: u128, h: u64, v: Seq<u8>) -> Self {
        let a = self.attrs[t];
        if a.contains(h) {
            self.buf_put(data_key(archetype_id_of(a), h, t), v)
        } else {
            self.added(t, h, v)
        }
    }

    pub open spec fn remove_need(self, t: u128, h: u64) -> Option<FetchView> {
        if !self.attrs.contains_key(t) {
            Some(FetchView::Attrs(t))
        } else if !self.attrs[t].contains(h) || self.attrs[t].remove(h).is_empty() {
            None
        } else {
            match self.first_missing(
                archetype_id_of(self.attrs[t]),
                t,
                canonical(self.attrs[t].remove(h)),
            ) {
                Some(k) => Some(FetchView::Data(k)),
                None => None,
            }
        }
    }

    /// Attribute `h` removed from entity `t`: its data is deleted, and the entity moves
    /// to the archetype of its shrunk attribute set (or loses its archetype when none is left).
    pub open spec fn removed(self, t: u128, h: u64) -> Self {
        let a = self.attrs[t];
        if !a.contains(h) {
            self
        } else {
            let r = a.remove(h);
            let oa = archetype_id_of(a);
            let v = self.buf_delete(data_key(oa, h, t)).with_attrs(t, r).push_delete(
                entity_attr_key_seq(t, h),
            ).push_delete(attr_index_key_seq(h, t));
            if r.is_empty() {
                v.push_delete(entity_archetype_key_seq(t))
            } else {
                let nr = archetype_id_of(r);
                v.migrated(oa, nr, t, canonical(r)).push_put(entity_archetype_key_seq(t), le64(nr))
            }
        }
    }

    /// The data, attribute record and index record of every attribute of `gs` deleted.
    pub open spec fn destroyed_each(self, arch: u64, t: u128, gs: Seq<u64>) -> Self
        decreases gs.len(),
    {
        if gs.len() == 0 {
            self
        } else {
            let v = self.destroyed_each(arch, t, gs.drop_last());
            let h = gs.last();
            v.buf_delete(data_key(arch, h, t)).with_attrs(t, v.attrs[t].remove(h)).push_delete(
                entity_attr_key_seq(t, h),
            ).push_delete(attr_index_key_seq(h, t))
        }
    }

    /// Every attribute of entity `t` removed.
    pub open spec fn destroyed(self, t: u128) -> Self {
        let a = self.attrs[t];
        if a.is_empty() {
            self
        } else {
            self.destroyed_each(archetype_id_of(a), t, canonical(a)).push_delete(
                entity_archetype_key_seq(t),
            )
        }
    }

    pub open spec fn related(self, e: u64, from: u128, to: u128, v: Seq<u8>) -> Self {
        self.buf_put(edge_key_seq(e, from, to), v).buf_put(reverse_edge_key_seq(e, to, from), v)
    }

    pub open spec fn unrelated(self, e: u64, from: u128, to: u128) -> Self {
        self.buf_delete(edge_key_seq(e, from, to)).buf_delete(reverse_edge_key_seq(e, to, from))
    }

    /// Both records of every forward edge key of `keys` deleted (the reverse record only
    /// when the key holds a target).
    pub open spec fn unrelated_keys(self, e: u64, from: u128, keys: Seq<Seq<u8>>) -> Self
        decreases keys.len(),
    {
        if keys.len() == 0 {
            self
        } else {
            let v = self.unrelated_keys(e, from, keys.drop_last());
            let k = keys.last();
            let v2 = match id_at(k, 26) {
                Some(tgt) => v.buf_delete(reverse_edge_key_seq(e, tgt, from)),
                None => v,
            };
            v2.buf_delete(k)
        }
    }
}

/// Whether the transaction's latest write of `k` stored a value.
pub open spec fn pending_value(tx: TxView, k: Seq<u8>) -> bool {
    tx.pending.contains_key(k) && tx.pending[k] is Some
}

/// The committed data of attribute `h` of entity `t`: the transaction's latest written
/// value under the entity's archetype, else the value read back from the store after
/// the commit (in `stored`, the store's answers by key, `None` for an absent key).
pub open spec fn committed_value(
    tx: TxView,
    stored: Map<Seq<u8>, Option<Seq<u8>>>,
    t: u128,
    h: u64,
) -> Option<Seq<u8>> {
    let k = data_key(archetype_id_of(tx.attrs[t]), h, t);
    if pending_value(tx, k) {
        tx.pending[k]
    } else if stored.contains_key(k) {
        stored[k]
    } else {
        None
    }
}

/// Whether every attribute of entity `t` has committed data.
pub open spec fn cache_complete(tx: TxView, stored: Map<Seq<u8>, Option<Seq<u8>>>, t: u128) -> bool {
    forall|h: u64| #[trigger] tx.attrs[t].contains(h) ==> committed_value(tx, stored, t, h) is Some
}

/// The committed data of every attribute of entity `t`.
pub open spec fn committed_components(
    tx: TxView,
    stored: Map<Seq<u8>, Option<Seq<u8>>>,
    t: u128,
) -> Map<u64, Seq<u8>> {
    Map::new(|h: u64| tx.attrs[t].contains(h), |h: u64| committed_value(tx, stored, t, h)->0)
}

/// The cache after the commit of entity `t`: cached with the committed data of all its
/// attributes when it has attributes and each has data; dropped otherwise, so that the
/// cache never holds a partial entity.
pub open spec fn cache_step(
    r: RegistryView,
    tx: TxView,
    stored: Map<Seq<u8>, Option<Seq<u8>>>,
    t: u128,
) -> RegistryView {
    if tx.attrs[t].is_empty() || !cache_complete(tx, stored, t) {
        r.removed_entity(t)
    } else {
        r.with_entity_components(t, committed_components(tx, stored, t))
    }
}

/// The cache after the commit of the entities of `ts`, in order.
pub open spec fn cache_after(
    r: RegistryView,
    tx: TxView,
    stored: Map<Seq<u8>, Option<Seq<u8>>>,
    ts: Seq<u128>,
) -> RegistryView
    decreases ts.len(),
{
    if ts.len() == 0 {
        r
    } else {
        cache_step(cache_after(r, tx, stored, ts.drop_last()), tx, stored, ts.last())
    }
}

/// Whether the cache update reads key `k` from the store: the data key, under the
/// entity's archetype, of an attribute of a touched entity that the transaction did not
/// leave a written value for.
pub open spec fn cache_read_needed(tx: TxView, k: Seq<u8>) -> bool {
    exists|t: u128, h: u64|
        #![trigger tx.attrs[t].contains(h), data_key(archetype_id_of(tx.attrs[t]), h, t)]
        tx.attrs.contains_key(t) && tx.attrs[t].contains(h) && k == data_key(
            archetype_id_of(tx.attrs[t]),
            h,
            t,
        ) && !pending_value(tx, k)
}

/// `k` is the data key of an attribute of `hs` of entity `t` that the transaction left
/// no written value for.
#[verifier::opaque]
pub open spec fn needed_for(tx: TxView, t: u128, hs: Seq<u64>, k: Seq<u8>) -> bool {
    exists|h: u64|
        #![trigger hs.contains(h), data_key(archetype_id_of(tx.attrs[t]), h, t)]
        hs.contains(h) && k == data_key(archetype_id_of(tx.attrs[t]), h, t) && !pending_value(tx, k)
}

/// `k` is needed for one of the entities of `ts`.
pub open spec fn needed_from(tx: TxView, ts: Seq<u128>, k: Seq<u8>) -> bool {
    exists|i: int| 0 <= i < ts.len() && needed_for(tx, #[trigger] ts[i], canonical(tx.attrs[ts[i]]), k)
}

pub open spec fn keys_view(p: Seq<Vec<u8>>) -> Seq<Seq<u8>> {
    p.map_values(|e: Vec<u8>| e@)
}

/// What the latest operation of `log` on key `k` leaves there: `Some(Some(v))` for a
/// write of `v`, `Some(None)` for a delete, `None` when no operation touches `k`.
pub open spec fn last_write(log: Seq<BatchOpView>, k: Seq<u8>) -> Option<Option<Seq<u8>>>
    decreases log.len(),
{
    if log.len() == 0 {
        None
    } else {
        match log.last() {
            BatchOpView::Put(key, v) => if key == k {
                Some(Some(v))
            } else {
                last_write(log.drop_last(), k)
            },
            BatchOpView::Delete(key) => if key == k {
                Some(None)
            } else {
                last_write(log.drop_last(), k)
            },
        }
    }
}

/// The lengths of the keys that the transaction reads back: data keys (32 bytes) and
/// the two records of an edge (42 and 43 bytes).
pub open spec fn read_back_key(k: Seq<u8>) -> bool {
    k.len() == 32 || k.len() == 42 || k.len() == 43
}

/// The transaction reads back, under every data and edge key it has written or
/// deleted, what the latest operation of its log on that key left there; and it reads
/// back written values only under such keys.
pub open spec fn log_agrees(v: TxView) -> bool {
    forall|k: Seq<u8>| #[trigger]
        v.pending.contains_key(k) ==> (v.pending[k] is Some ==> read_back_key(k)) && (read_back_key(
            k,
        ) ==> last_write(v.log, k) == Some(v.pending[k]))
}

/// The buffered state of a transaction.
pub struct TxCore {
    log: Vec<BatchOp>,
    pending_attrs: HashMap<u128, Vec<u64>>,
    touched: Vec<u128>,
    pending_data: ByteMap,
    fetched: ByteMap,
}

impl View for TxCore {
    type V = TxView;

    closed spec fn view(&self) -> TxView {
        TxView {
            log: ops_view(self.log@),
            attrs: self.pending_attrs@.map_values(|v: Vec<u64>| v@.to_set()),
            touched: self.touched@,
            pending: self.pending_data@,
            fetched: self.fetched@,
        }
    }
}

fn copy_ids(v: &Vec<u64>) -> (r: Vec<u64>)
    ensures
        r@ == v@,
{
    slice_to_vec(v.as_slice())
}

fn copy_bytes(v: &[u8]) -> (r: Vec<u8>)
    ensures
        r@ == v@,
{
    slice_to_vec(v)
}

impl TxCore {
    pub closed spec fn wf(&self) -> bool {
        &&& self.pending_data.wf()
        &&& self.fetched.wf()
        &&& forall|t: u128| #[trigger]
            self.pending_attrs@.contains_key(t) ==> strictly_sorted(self.pending_attrs@[t]@)
        &&& self.touched@.no_duplicates()
        &&& self.touched@.to_set() == self.pending_attrs@.dom()
        &&& log_agrees(self@)
    }

    /// The attribute sets of the touched entities are finite, and the touched entities
    /// are exactly those with an attribute set.
    pub proof fn lemma_wf(&self)
        requires
            self.wf(),
        ensures
            self@.touched.no_duplicates(),
            self@.touched.to_set() == self@.attrs.dom(),
            forall|t: u128| #[trigger]
                self@.attrs.contains_key(t) ==> self@.attrs[t].finite(),
            log_agrees(self@),
    {
        assert(self@.attrs.dom() =~= self.pending_attrs@.dom());
        assert forall|t: u128| #[trigger] self@.attrs.contains_key(t) implies self@.attrs[t].finite() by {
            self.pending_attrs@[t]@.lemma_cardinality_of_set();
        }
    }

    /// An empty transaction.
    pub fn new() -> (r: Self)
        ensures
            r.wf(),
            r@.log.len() == 0,
            r@.attrs.is_empty(),
            r@.touched.len() == 0,
            r@.pending.is_empty(),
            r@.fetched.is_empty(),
    {
        let r = TxCore {
            log: Vec::new(),
            pending_attrs: HashMap::new(),
            touched: Vec::new(),
            pending_data: ByteMap::new(),
            fetched: ByteMap::new(),
        };
        assert(r@.attrs =~= Map::empty());
        assert(r.touched@.to_set() =~= r.pending_attrs@.dom());
        r
    }

    /// Whether the stored attribute set of `thing` still has to be fetched.
    pub fn needs_attrs(&self, thing: u128) -> (r: bool)
        requires
            self.wf(),
        ensures
            r == !self@.attrs.contains_key(thing),
    {
        !self.pending_attrs.contains_key(&thing)
    }

    /// Gives the transaction the stored attribute hashes of `thing`; ignored once the
    /// transaction has an attribute set for it.
    pub fn supply_attrs(&mut self, thing: u128, stored: &[u64])
        requires
            old(self).wf(),
        ensures
            final(self).wf(),
            final(self)@ == (if old(self)@.attrs.contains_key(thing) {
                old(self)@
            } else {
                TxView {
                    attrs: old(self)@.attrs.insert(thing, stored@.to_set()),
                    touched: old(self)@.touched.push(thing),
                    ..old(self)@
                }
            }),
    {
        if self.pending_attrs.contains_key(&thing) {
            return;
        }
        let set = set_from_ids(stored);
        self.pending_attrs.insert(thing, set);
        self.touched.push(thing);
        proof {
            assert(final(self)@.attrs =~= old(self)@.attrs.insert(thing, stored@.to_set()));
            assert(self.touched@.to_set() =~= old(self).touched@.to_set().insert(thing));
            assert(!old(self).touched@.contains(thing)) by {
                if old(self).touched@.contains(thing) {
                    assert(old(self).touched@.to_set().contains(thing));
                }
            }
        }
    }

    /// Gives the transaction the stored value under `key` (`None`: absent).
    pub fn supply_data(&mut self, key: Vec<u8>, value: Option<Vec<u8>>)
        requires
            old(self).wf(),
        ensures
            final(self).wf(),
            final(self)@ == (TxView {
                fetched: old(self)@.fetched.insert(key@, opt_bytes(value)),
                ..old(self)@
            }),
    {
        self.fetched.insert(key, value);
    }

    /// Appends `op` to the log; `key` is the key it touches.
    fn log_op(&mut self, op: BatchOp)
        ensures
            final(self).pending_attrs == old(self).pending_attrs,
            final(self).touched == old(self).touched,
            final(self).pending_data == old(self).pending_data,
            final(self).fetched == old(self).fetched,
            final(self)@.log == old(self)@.log.push(op@),
    {
        let ghost pre = self.log@;
        self.log.push(op);
        assert(ops_view(self.log@) =~= ops_view(pre).push(op@));
    }

    fn buf_put(&mut self, key: Vec<u8>, value: Vec<u8>)
        requires
            old(self).wf(),
            read_back_key(key@),
        ensures
            final(self).wf(),
            final(self)@ == old(self)@.buf_put(key@, value@),
    {
        self.pending_data.insert(copy_bytes(key.as_slice()), Some(copy_bytes(value.as_slice())));
        let ghost k0 = key@;
        self.log_op(BatchOp::Put(key, value));
        proof {
            assert(self@.log.drop_last() =~= old(self)@.log);
            assert forall|k: Seq<u8>| #[trigger] self@.pending.contains_key(k) implies (self@.pending[k] is Some
                ==> read_back_key(k)) && (read_back_key(k) ==> last_write(self@.log, k) == Some(
                self@.pending[k],
            )) by {
                if k != k0 {
                    assert(old(self)@.pending.contains_key(k));
                }
            }
            assert(self@ == old(self)@.buf_put(k0, value@));
        }
    }

    fn buf_delete(&mut self, key: Vec<u8>)
        requires
            old(self).wf(),
        ensures
            final(self).wf(),
            final(self)@ == old(self)@.buf_delete(key@),
    {
        self.pending_data.insert(copy_bytes(key.as_slice()), None);
        let ghost k0 = key@;
        self.log_op(BatchOp::Delete(key));
        proof {
            assert(self@.log.drop_last() =~= old(self)@.log);
            assert forall|k: Seq<u8>| #[trigger] self@.pending.contains_key(k) implies (self@.pending[k] is Some
                ==> read_back_key(k)) && (read_back_key(k) ==> last_write(self@.log, k) == Some(
                self@.pending[k],
            )) by {
                if k != k0 {
                    assert(old(self)@.pending.contains_key(k));
                }
            }
            assert(self@ == old(self)@.buf_delete(k0));
        }
    }

    fn push_put(&mut self, key: Vec<u8>, value: Vec<u8>)
        requires
            old(self).wf(),
            !read_back_key(key@),
        ensures
            final(self).wf(),
            final(self)@ == old(self)@.push_put(key@, value@),
    {
        let ghost k0 = key@;
        self.log_op(BatchOp::Put(key, value));
        proof {
            assert(self@.log.drop_last() =~= old(self)@.log);
            assert forall|k: Seq<u8>| #[trigger] self@.pending.contains_key(k) implies (self@.pending[k] is Some
                ==> read_back_key(k)) && (read_back_key(k) ==> last_write(self@.log, k) == Some(
                self@.pending[k],
            )) by {
                assert(old(self)@.pending.contains_key(k));
                if read_back_key(k) {
                    assert(k != k0);
                }
            }
            assert(self@ == old(self)@.push_put(k0, value@));
        }
    }

    fn push_delete(&mut self, key: Vec<u8>)
        requires
            old(self).wf(),
            !read_back_key(key@),
        ensures
            final(self).wf(),
            final(self)@ == old(self)@.push_delete(key@),
    {
        let ghost k0 = key@;
        self.log_op(BatchOp::Delete(key));
        proof {
            assert(self@.log.drop_last() =~= old(self)@.log);
            assert forall|k: Seq<u8>| #[trigger] self@.pending.contains_key(k) implies (self@.pending[k] is Some
                ==> read_back_key(k)) && (read_back_key(k) ==> last_write(self@.log, k) == Some(
                self@.pending[k],
            )) by {
                assert(old(self)@.pending.contains_key(k));
                if read_back_key(k) {
                    assert(k != k0);
                }
            }
            assert(self@ == old(self)@.push_delete(k0));
        }
    }

    /// Replaces the attribute set of an entity that the transaction has looked at.
    fn store_attrs(&mut self, thing: u128, set: Vec<u64>)
        requires
            old(self).wf(),
            old(self)@.attrs.contains_key(thing),
            strictly_sorted(set@),
        ensures
            final(self).wf(),
            final(self)@ == old(self)@.with_attrs(thing, set@.to_set()),
    {
        self.pending_attrs.insert(thing, set);
        proof {
            assert(self.pending_attrs@.dom() =~= old(self).pending_attrs@.dom());
            assert(final(self)@.attrs =~= old(self)@.attrs.insert(thing, set@.to_set()));
        }
    }

    /// The attribute set of an entity the transaction has looked at, ascending.
    fn attrs_of(&self, thing: u128) -> (r: Option<Vec<u64>>)
        requires
            self.wf(),
        ensures
            r matches Some(v) ==> self@.attrs.contains_key(thing) && strictly_sorted(v@) && v@.to_set()
                == self@.attrs[thing],
            r is None ==> !self@.attrs.contains_key(thing),
    {
        match self.pending_attrs.get(&thing) {
            Some(v) => Some(copy_ids(v)),
            None => None,
        }
    }

    /// The value the transaction sees under a key whose value is known.
    fn read_known(&self, key: &[u8]) -> (r: Option<Vec<u8>>)
        requires
            self.wf(),
            self@.known(key@),
        ensures
            opt_bytes(r) == self@.read(key@),
    {
        match self.pending_data.get(key) {
            Some(v) => match v {
                Some(d) => Some(copy_bytes(d.as_slice())),
                None => None,
            },
            None => match self.fetched.get(key) {
                Some(v) => match v {
                    Some(d) => Some(copy_bytes(d.as_slice())),
                    None => None,
                },
                None => None,
            },
        }
    }

    /// The first data key of `gs` under `arch` whose value is not known yet.
    fn first_missing(&self, arch: u64, thing: u128, gs: &Vec<u64>) -> (r: Option<Vec<u8>>)
        requires
            self.wf(),
        ensures
            opt_bytes(r) == self@.first_missing(arch, thing, gs@),
    {
        let mut i: usize = 0;
        while i < gs.len()
            invariant
                self.wf(),
                i <= gs@.len(),
                self@.first_missing(arch, thing, gs@) == self@.first_missing(
                    arch,
                    thing,
                    gs@.skip(i as int),
                ),
            decreases gs@.len() - i,
        {
            let key = KeyEncoder::encode(arch, gs[i], thing);
            assert(gs@.skip(i as int)[0] == gs@[i as int]);
            assert(gs@.skip(i as int).drop_first() =~= gs@.skip(i + 1));
            let known = match self.pending_data.get(key.as_slice()) {
                Some(_) => true,
                None => match self.fetched.get(key.as_slice()) {
                    Some(_) => true,
                    None => false,
                },
            };
            if !known {
                return Some(key);
            }
            i = i + 1;
        }
        None
    }

    /// Copies the data of every attribute of `gs` from archetype `from` to archetype `to`.
    fn migrate(&mut self, from: u64, to: u64, thing: u128, gs: &Vec<u64>)
        requires
            old(self).wf(),
            old(self)@.first_missing(from, thing, gs@) is None,
        ensures
            final(self).wf(),
            final(self)@ == old(self)@.migrated(from, to, thing, gs@),
    {
        proof {
            lemma_first_missing_none(old(self)@, from, thing, gs@);
        }
        let mut i: usize = 0;
        while i < gs.len()
            invariant
                self.wf(),
                i <= gs@.len(),
                self@ == old(self)@.migrated(from, to, thing, gs@.take(i as int)),
                forall|j: int| 0 <= j < gs@.len() ==> old(self)@.known(#[trigger] data_key(from, gs@[j], thing)),
                old(self)@.pending.dom().subset_of(self@.pending.dom()),
                self@.fetched == old(self)@.fetched,
            decreases gs@.len() - i,
        {
            let key = KeyEncoder::encode(from, gs[i], thing);
            assert(old(self)@.known(data_key(from, gs@[i as int], thing)));
            assert(gs@.take(i + 1).drop_last() =~= gs@.take(i as int));
            assert(gs@.take(i + 1).last() == gs@[i as int]);
            match self.read_known(key.as_slice()) {
                Some(data) => {
                    let to_key = KeyEncoder::encode(to, gs[i], thing);
                    self.buf_put(to_key, data);
                },
                None => {},
            }
            i = i + 1;
        }
        assert(gs@.take(gs@.len() as int) =~= gs@);
    }


    /// Buffers attribute `attr_hash` with serialized data `bytes` for `thing`. An
    /// attribute the entity already has is left as it is. Otherwise the entity moves to
    /// the archetype of its grown attribute set: the data of its other attributes is
    /// copied there, and its archetype, attribute and index records are written.
    pub fn add(&mut self, thing: u128, attr_hash: u64, bytes: Vec<u8>) -> (r: Result<(), Fetch>)
        requires
            old(self).wf(),
        ensures
            final(self).wf(),
            match r {
                Ok(()) => old(self)@.add_need(thing, attr_hash) is None && final(self)@ == old(
                    self,
                )@.added(thing, attr_hash, bytes@),
                Err(f) => old(self)@.add_need(thing, attr_hash) == Some(f@) && final(self)@ == old(
                    self,
                )@,
            },
    {
        let attrs = match self.attrs_of(thing) {
            Some(a) => a,
            None => {
                return Err(Fetch::Attrs(thing));
            },
        };
        proof {
            lemma_canonical_of(attrs@);
        }
        if set_contains(&attrs, attr_hash) {
            return Ok(());
        }
        self.add_missing(thing, attr_hash, bytes, &attrs)
    }

    /// `add` once the attribute is known to be missing from `attrs`, the entity's set.
    fn add_missing(&mut self, thing: u128, attr_hash: u64, bytes: Vec<u8>, attrs: &Vec<u64>) -> (r:
        Result<(), Fetch>)
        requires
            old(self).wf(),
            old(self)@.attrs.contains_key(thing),
            strictly_sorted(attrs@),
            attrs@.to_set() == old(self)@.attrs[thing],
            !old(self)@.attrs[thing].contains(attr_hash),
        ensures
            final(self).wf(),
            match r {
                Ok(()) => old(self)@.add_need(thing, attr_hash) is None && final(self)@ == old(
                    self,
                )@.added(thing, attr_hash, bytes@),
                Err(f) => old(self)@.add_need(thing, attr_hash) == Some(f@) && final(self)@ == old(
                    self,
                )@,
            },
    {
        proof {
            lemma_canonical_of(attrs@);
            attrs@.lemma_cardinality_of_set();
        }
        let mut grown = copy_ids(attrs);
        set_insert(&mut grown, attr_hash);
        let new_arch = archetype_id(&grown);
        if attrs.len() > 0 {
            assert(attrs@.to_set().contains(attrs@[0]));
            let old_arch = archetype_id(attrs);
            match self.first_missing(old_arch, thing, attrs) {
                Some(k) => {
                    return Err(Fetch::Data(k));
                },
                None => {},
            }
            self.migrate(old_arch, new_arch, thing, attrs);
            proof {
                lemma_migrated_frame(old(self)@, old_arch, new_arch, thing, attrs@);
            }
        } else {
            assert(attrs@.to_set() =~= Set::<u64>::empty());
        }
        self.buf_put(KeyEncoder::encode(new_arch, attr_hash, thing), bytes);
        self.push_put(entity_to_archetype_key(thing), u64_value(new_arch));
        self.store_attrs(thing, grown);
        self.push_put(entity_attr_key(thing, attr_hash), u64_value(attr_hash));
        self.push_put(attr_index_key(attr_hash, thing), Vec::new());
        Ok(())
    }

    /// Buffers `bytes` as attribute `attr_hash` of `thing`: overwritten in place when the
    /// entity has the attribute, added as by `add` otherwise.
    pub fn set(&mut self, thing: u128, attr_hash: u64, bytes: Vec<u8>) -> (r: Result<(), Fetch>)
        requires
            old(self).wf(),
        ensures
            final(self).wf(),
            match r {
                Ok(()) => old(self)@.set_need(thing, attr_hash) is None && final(self)@ == old(
                    self,
                )@.set_value(thing, attr_hash, bytes@),
                Err(f) => old(self)@.set_need(thing, attr_hash) == Some(f@) && final(self)@ == old(
                    self,
                )@,
            },
    {
        let attrs = match self.attrs_of(thing) {
            Some(a) => a,
            None => {
                return Err(Fetch::Attrs(thing));
            },
        };
        if set_contains(&attrs, attr_hash) {
            let arch = archetype_id(&attrs);
            self.buf_put(KeyEncoder::encode(arch, attr_hash, thing), bytes);
            return Ok(());
        }
        self.add_missing(thing, attr_hash, bytes, &attrs)
    }

    /// Buffers the removal of attribute `attr_hash` from `thing`: its data and records are
    /// deleted, and the entity moves to the archetype of its remaining attributes, taking
    /// their data along (or loses its archetype record when none remain). No change when
    /// the entity lacks the attribute.
    pub fn remove(&mut self, thing: u128, attr_hash: u64) -> (r: Result<(), Fetch>)
        requires
            old(self).wf(),
        ensures
            final(self).wf(),
            match r {
                Ok(()) => old(self)@.remove_need(thing, attr_hash) is None && final(self)@ == old(
                    self,
                )@.removed(thing, attr_hash),
                Err(f) => old(self)@.remove_need(thing, attr_hash) == Some(f@) && final(self)@
                    == old(self)@,
            },
    {
        let attrs = match self.attrs_of(thing) {
            Some(a) => a,
            None => {
                return Err(Fetch::Attrs(thing));
            },
        };
        let mut rest = copy_ids(&attrs);
        if !set_remove(&mut rest, attr_hash) {
            return Ok(());
        }
        proof {
            lemma_canonical_of(rest@);
            rest@.lemma_cardinality_of_set();
        }
        let old_arch = archetype_id(&attrs);
        if rest.len() > 0 {
            assert(rest@.to_set().contains(rest@[0]));
            match self.first_missing(old_arch, thing, &rest) {
                Some(k) => {
                    return Err(Fetch::Data(k));
                },
                None => {},
            }
        } else {
            assert(rest@.to_set() =~= Set::<u64>::empty());
        }
        let ghost before = self@;
        self.buf_delete(KeyEncoder::encode(old_arch, attr_hash, thing));
        let rest_len = rest.len();
        let ghost rest_view = rest@;
        self.store_attrs(thing, copy_ids(&rest));
        self.push_delete(entity_attr_key(thing, attr_hash));
        self.push_delete(attr_index_key(attr_hash, thing));
        if rest_len == 0 {
            self.push_delete(entity_to_archetype_key(thing));
        } else {
            let new_arch = archetype_id(&rest);
            proof {
                lemma_first_missing_none(before, old_arch, thing, rest_view);
                lemma_first_missing_after_delete(before, self@, old_arch, thing, rest_view, attr_hash);
            }
            let ghost mid = self@;
            self.migrate(old_arch, new_arch, thing, &rest);
            proof {
                lemma_migrated_frame(mid, old_arch, new_arch, thing, rest_view);
            }
            self.push_put(entity_to_archetype_key(thing), u64_value(new_arch));
        }
        Ok(())
    }

    /// Buffers the removal of every attribute of `thing`, with all their data and records,
    /// and of its archetype record. No change when the entity has no attributes.
    #[verifier::rlimit(40)]
    pub fn destroy(&mut self, thing: u128) -> (r: Result<(), Fetch>)
        requires
            old(self).wf(),
        ensures
            final(self).wf(),
            match r {
                Ok(()) => old(self)@.attrs.contains_key(thing) && final(self)@ == old(
                    self,
                )@.destroyed(thing),
                Err(f) => !old(self)@.attrs.contains_key(thing) && f@ == FetchView::Attrs(thing)
                    && final(self)@ == old(self)@,
            },
    {
        let attrs = match self.attrs_of(thing) {
            Some(a) => a,
            None => {
                return Err(Fetch::Attrs(thing));
            },
        };
        proof {
            lemma_canonical_of(attrs@);
            attrs@.lemma_cardinality_of_set();
        }
        if attrs.len() == 0 {
            assert(attrs@.to_set() =~= Set::<u64>::empty());
            return Ok(());
        }
        assert(attrs@.to_set().contains(attrs@[0]));
        let arch = archetype_id(&attrs);
        let mut i: usize = 0;
        while i < attrs.len()
            invariant
                self.wf(),
                i <= attrs@.len(),
                self@ == old(self)@.destroyed_each(arch, thing, attrs@.take(i as int)),
                self@.attrs.contains_key(thing),
                strictly_sorted(attrs@),
            decreases attrs@.len() - i,
        {
            let h = attrs[i];
            assert(attrs@.take(i + 1).drop_last() =~= attrs@.take(i as int));
            assert(attrs@.take(i + 1).last() == h);
            self.buf_delete(KeyEncoder::encode(arch, h, thing));
            let current = self.attrs_of(thing).unwrap();
            let mut smaller = current;
            set_remove(&mut smaller, h);
            self.store_attrs(thing, smaller);
            self.push_delete(entity_attr_key(thing, h));
            self.push_delete(attr_index_key(h, thing));
            i = i + 1;
        }
        assert(attrs@.take(attrs@.len() as int) =~= attrs@);
        self.push_delete(entity_to_archetype_key(thing));
        Ok(())
    }

    /// Buffers both records of an edge of type `edge_hash` from `from` to `to`, each holding
    /// the serialized edge data `bytes`.
    pub fn relate(&mut self, edge_hash: u64, from: u128, to: u128, bytes: Vec<u8>)
        requires
            old(self).wf(),
        ensures
            final(self).wf(),
            final(self)@ == old(self)@.related(edge_hash, from, to, bytes@),
    {
        let copy = copy_bytes(bytes.as_slice());
        self.buf_put(edge_key(edge_hash, from, to), bytes);
        self.buf_put(reverse_edge_key(edge_hash, to, from), copy);
    }

    /// Buffers the deletion of both records of the edge of type `edge_hash` from `from` to `to`.
    pub fn unrelate(&mut self, edge_hash: u64, from: u128, to: u128)
        requires
            old(self).wf(),
        ensures
            final(self).wf(),
            final(self)@ == old(self)@.unrelated(edge_hash, from, to),
    {
        self.buf_delete(edge_key(edge_hash, from, to));
        self.buf_delete(reverse_edge_key(edge_hash, to, from));
    }

    /// Buffers the deletion of every edge of type `edge_hash` leaving `from`, given the
    /// stored forward keys under `from`'s outgoing prefix: each forward key, and the reverse
    /// record of its target.
    pub fn unrelate_all_from(&mut self, edge_hash: u64, from: u128, forward_keys: &Vec<Vec<u8>>)
        requires
            old(self).wf(),
        ensures
            final(self).wf(),
            final(self)@ == old(self)@.unrelated_keys(edge_hash, from, keys_view(forward_keys@)),
    {
        let mut i: usize = 0;
        while i < forward_keys.len()
            invariant
                self.wf(),
                i <= forward_keys@.len(),
                self@ == old(self)@.unrelated_keys(
                    edge_hash,
                    from,
                    keys_view(forward_keys@).take(i as int),
                ),
            decreases forward_keys@.len() - i,
        {
            let key = &forward_keys[i];
            assert(keys_view(forward_keys@).take(i + 1).drop_last() =~= keys_view(forward_keys@).take(i as int));
            assert(keys_view(forward_keys@).take(i + 1).last() == key@);
            match parse_edge_target(key.as_slice()) {
                Some(tgt) => {
                    self.buf_delete(reverse_edge_key(edge_hash, tgt, from));
                },
                None => {},
            }
            self.buf_delete(copy_bytes(key.as_slice()));
            i = i + 1;
        }
        assert(keys_view(forward_keys@).take(forward_keys@.len() as int) =~= keys_view(forward_keys@));
    }

    /// The buffered writes and deletes, in the order the operations made them.
    pub fn ops(&self) -> (r: &Vec<BatchOp>)
        ensures
            ops_view(r@) == self@.log,
    {
        &self.log
    }

    /// The number of entities the transaction has looked at.
    pub fn touched_count(&self) -> (n: usize)
        ensures
            n == self@.touched.len(),
    {
        self.touched.len()
    }

    /// Whether the transaction's latest write of `key` stored a value.
    fn has_pending_value(&self, key: &[u8]) -> (r: bool)
        requires
            self.wf(),
        ensures
            r == pending_value(self@, key@),
    {
        match self.pending_data.get(key) {
            Some(v) => match v {
                Some(_) => true,
                None => false,
            },
            None => false,
        }
    }

    /// The keys the cache update needs read back from the store once the batch is
    /// written: for every touched entity, the data key of each attribute that the
    /// transaction left no written value for.
    pub fn cache_reads(&self) -> (keys: Vec<Vec<u8>>)
        requires
            self.wf(),
        ensures
            forall|k: Seq<u8>| keys_view(keys@).contains(k) <==> cache_read_needed(self@, k),
    {
        proof {
            self.lemma_wf();
        }
        let mut keys: Vec<Vec<u8>> = Vec::new();
        let mut i: usize = 0;
        while i < self.touched.len()
            invariant
                self.wf(),
                i <= self@.touched.len(),
                self@.touched.to_set() == self@.attrs.dom(),
                forall|k: Seq<u8>|
                    keys_view(keys@).contains(k) <==> needed_from(self@, self@.touched.take(i as int), k),
            decreases self@.touched.len() - i,
        {
            let thing = self.touched[i];
            assert(self@.touched.to_set().contains(thing));
            let attrs = self.attrs_of(thing).unwrap();
            proof {
                lemma_canonical_of(attrs@);
            }
            let arch = archetype_id(&attrs);
            let ghost before = keys_view(keys@);
            assert(forall|k: Seq<u8>| before.contains(k) <==> needed_from(self@, self@.touched.take(i as int), k));
            proof {
                reveal(needed_for);
                assert(attrs@.take(0) =~= Seq::<u64>::empty());
                assert forall|k: Seq<u8>| !needed_for(self@, thing, attrs@.take(0), k) by {}
            }
            let mut j: usize = 0;
            while j < attrs.len()
                invariant
                    self.wf(),
                    j <= attrs@.len(),
                    self@.attrs.contains_key(thing),
                    attrs@ == canonical(self@.attrs[thing]),
                    arch == archetype_id_of(self@.attrs[thing]),
                    forall|k: Seq<u8>|
                        keys_view(keys@).contains(k) <==> (before.contains(k) || needed_for(
                            self@,
                            thing,
                            attrs@.take(j as int),
                            k,
                        )),
                decreases attrs@.len() - j,
            {
                let h = attrs[j];
                let key = KeyEncoder::encode(arch, h, thing);
                let ghost pre = keys_view(keys@);
                let ghost kv = key@;
                assert(forall|k: Seq<u8>| pre.contains(k) <==> (before.contains(k) || needed_for(
                    self@,
                    thing,
                    attrs@.take(j as int),
                    k,
                )));
                let pend = self.has_pending_value(key.as_slice());
                if !pend {
                    keys.push(key);
                    assert(keys_view(keys@) =~= pre.push(kv));
                }
                proof {
                    reveal(needed_for);
                    let a = attrs@.take(j as int);
                    let b = attrs@.take(j + 1);
                    assert(b =~= a.push(h));
                    assert forall|k: Seq<u8>|
                        keys_view(keys@).contains(k) <==> (before.contains(k) || needed_for(self@, thing, b, k)) by {
                        if needed_for(self@, thing, b, k) {
                            let g = choose|g: u64| #![trigger b.contains(g), data_key(archetype_id_of(self@.attrs[thing]), g, thing)]
                                b.contains(g) && k == data_key(archetype_id_of(self@.attrs[thing]), g, thing) && !pending_value(self@, k);
                            if g != h {
                                let q = choose|q: int| 0 <= q < b.len() && b[q] == g;
                                assert(a[q] == g);
                                assert(a.contains(g));
                                assert(needed_for(self@, thing, a, k));
                            } else {
                                assert(k == kv);
                                assert(keys_view(keys@)[keys_view(keys@).len() - 1] == kv);
                            }
                        }
                        if needed_for(self@, thing, a, k) {
                            let g = choose|g: u64| #![trigger a.contains(g), data_key(archetype_id_of(self@.attrs[thing]), g, thing)]
                                a.contains(g) && k == data_key(archetype_id_of(self@.attrs[thing]), g, thing) && !pending_value(self@, k);
                            let q = choose|q: int| 0 <= q < a.len() && a[q] == g;
                            assert(b[q] == g);
                            assert(b.contains(g));
                        }
                        if !pend && k == kv {
                            assert(b[j as int] == h);
                            assert(b.contains(h));
                            assert(needed_for(self@, thing, b, k));
                        }
                        if keys_view(keys@).contains(k) && !pre.contains(k) {
                            assert(k == kv);
                        }
                        if pre.contains(k) {
                            let q = choose|q: int| 0 <= q < pre.len() && pre[q] == k;
                            if !pend {
                                assert(keys_view(keys@)[q] == k);
                            }
                        }
                    }
                }
                j = j + 1;
            }
            proof {
                assert(attrs@.take(attrs@.len() as int) =~= attrs@);
                assert(j == attrs@.len());
                assert(forall|k: Seq<u8>| keys_view(keys@).contains(k) <==> (before.contains(k) || needed_for(
                    self@,
                    thing,
                    attrs@.take(j as int),
                    k,
                )));
                assert(attrs@.take(j as int) =~= canonical(self@.attrs[thing]));
                assert(forall|k: Seq<u8>| keys_view(keys@).contains(k) <==> (before.contains(k) || needed_for(
                    self@,
                    thing,
                    canonical(self@.attrs[thing]),
                    k,
                )));
                let ta = self@.touched.take(i as int);
                let tb = self@.touched.take(i + 1);
                assert(tb =~= ta.push(thing));
                assert forall|k: Seq<u8>| keys_view(keys@).contains(k) <==> needed_from(self@, tb, k) by {
                    assert(keys_view(keys@).contains(k) == (before.contains(k) || needed_for(
                        self@,
                        thing,
                        canonical(self@.attrs[thing]),
                        k,
                    )));
                    assert(before.contains(k) == needed_from(self@, self@.touched.take(i as int), k));
                    if needed_from(self@, tb, k) {
                        let q = choose|q: int| 0 <= q < tb.len() && needed_for(self@, #[trigger] tb[q], canonical(self@.attrs[tb[q]]), k);
                        if q < i {
                            assert(ta[q] == tb[q]);
                            assert(needed_for(self@, ta[q], canonical(self@.attrs[ta[q]]), k));
                            assert(needed_from(self@, ta, k));
                        } else {
                            assert(tb[q] == thing);
                            assert(needed_for(self@, thing, canonical(self@.attrs[thing]), k));
                        }
                    }
                    if needed_from(self@, ta, k) {
                        let q = choose|q: int| 0 <= q < ta.len() && needed_for(self@, #[trigger] ta[q], canonical(self@.attrs[ta[q]]), k);
                        assert(tb[q] == ta[q]);
                        assert(needed_for(self@, tb[q], canonical(self@.attrs[tb[q]]), k));
                    }
                    if needed_for(self@, thing, canonical(self@.attrs[thing]), k) {
                        assert(tb[i as int] == thing);
                        assert(needed_for(self@, tb[i as int], canonical(self@.attrs[tb[i as int]]), k));
                    }
                }
            }
            i = i + 1;
        }
        proof {
            reveal(needed_for);
            assert(self@.touched.take(self@.touched.len() as int) =~= self@.touched);
            assert forall|k: Seq<u8>| needed_from(self@, self@.touched, k) <==> cache_read_needed(self@, k) by {
                if needed_from(self@, self@.touched, k) {
                    let q = choose|q: int| 0 <= q < self@.touched.len() && needed_for(self@, #[trigger] self@.touched[q], canonical(self@.attrs[self@.touched[q]]), k);
                    let t = self@.touched[q];
                    assert(self@.touched.to_set().contains(t));
                    let g = choose|g: u64| #![trigger canonical(self@.attrs[t]).contains(g), data_key(archetype_id_of(self@.attrs[t]), g, t)]
                        canonical(self@.attrs[t]).contains(g) && k == data_key(archetype_id_of(self@.attrs[t]), g, t) && !pending_value(self@, k);
                    crate::ids::lemma_canonical_exists(self@.attrs[t]);
                    assert(canonical(self@.attrs[t]).to_set().contains(g));
                    assert(self@.attrs[t].contains(g));
                }
                if cache_read_needed(self@, k) {
                    let (t, g) = choose|t: u128, g: u64|
                        #![trigger self@.attrs[t].contains(g), data_key(archetype_id_of(self@.attrs[t]), g, t)]
                        self@.attrs.contains_key(t) && self@.attrs[t].contains(g) && k == data_key(archetype_id_of(self@.attrs[t]), g, t) && !pending_value(self@, k);
                    assert(self@.touched.to_set().contains(t));
                    let q = choose|q: int| 0 <= q < self@.touched.len() && self@.touched[q] == t;
                    crate::ids::lemma_canonical_exists(self@.attrs[t]);
                    assert(canonical(self@.attrs[t]).to_set().contains(g));
                    assert(canonical(self@.attrs[t]).contains(g));
                    assert(needed_for(self@, t, canonical(self@.attrs[t]), k));
                    assert(needed_for(self@, self@.touched[q], canonical(self@.attrs[self@.touched[q]]), k));
                }
            }
        }
        keys
    }

    /// Brings the archetype cache up to date with the committed transaction. `stored`
    /// holds what the store returned, once the batch was written, for the keys of
    /// [`TxCore::cache_reads`]. Every entity the transaction looked at is cached with the
    /// committed data of all of its attributes when it has attributes and each has data,
    /// and is dropped from the cache otherwise.
    pub fn update_cache(&self, registry: &mut Registry, stored: &ByteMap)
        requires
            self.wf(),
            stored.wf(),
            old(registry).wf(),
            room_for(old(registry)@, self@.touched.len() as int),
        ensures
            final(registry).wf(),
            final(registry)@ == cache_after(old(registry)@, self@, stored@, self@.touched),
            forall|u: u128, h: u64|
                !self@.touched.contains(u) ==> #[trigger] final(registry)@.read(u, h) == old(
                    registry,
                )@.read(u, h),
            forall|u: u128|
                !self@.touched.contains(u) ==> #[trigger] final(registry)@.entity_archetype.contains_key(u)
                    == old(registry)@.entity_archetype.contains_key(u),
            forall|u: u128|
                !self@.touched.contains(u) && old(registry)@.entity_archetype.contains_key(u)
                    ==> #[trigger] final(registry)@.entity_archetype[u] == old(registry)@.entity_archetype[u],
    {
        proof {
            self.lemma_wf();
        }
        let mut i: usize = 0;
        while i < self.touched.len()
            invariant
                self.wf(),
                stored.wf(),
                registry.wf(),
                i <= self@.touched.len(),
                self@.touched.to_set() == self@.attrs.dom(),
                registry@ == cache_after(old(registry)@, self@, stored@, self@.touched.take(i as int)),
                room_for(registry@, self@.touched.len() - i),
            decreases self@.touched.len() - i,
        {
            let thing = self.touched[i];
            proof {
                assert(self@.touched.take(i + 1).drop_last() =~= self@.touched.take(i as int));
                assert(self@.touched.take(i + 1).last() == thing);
                assert(self@.touched.to_set().contains(thing));
                registry.lemma_wf();
            }
            let attrs = self.attrs_of(thing).unwrap();
            let comps = if attrs.len() == 0 {
                assert(attrs@.to_set() =~= Set::<u64>::empty());
                None
            } else {
                assert(attrs@.to_set().contains(attrs@[0]));
                let arch = archetype_id(&attrs);
                self.committed_components_of(thing, &attrs, arch, stored)
            };
            match comps {
                Some(comps) => {
                    proof {
                        lemma_room_after_step(registry@, thing, comps@.map_values(|v: Vec<u8>| v@), self@.touched.len() - i - 1);
                    }
                    registry.set_entity_components(thing, comps);
                },
                None => {
                    proof {
                        lemma_room_after_step(registry@, thing, Map::empty(), self@.touched.len() - i - 1);
                    }
                    registry.remove_entity(thing);
                },
            }
            i = i + 1;
        }
        assert(self@.touched.take(self@.touched.len() as int) =~= self@.touched);
        proof {
            old(registry).lemma_wf();
            assert forall|u: u128, h: u64| !self@.touched.contains(u) implies #[trigger] registry@.read(u, h)
                == old(registry)@.read(u, h) by {
                law_commit_keeps_others(old(registry)@, self@, stored@, self@.touched, u, h);
            }
            assert forall|u: u128| !self@.touched.contains(u) implies #[trigger] registry@.entity_archetype.contains_key(u)
                == old(registry)@.entity_archetype.contains_key(u) && (old(registry)@.entity_archetype.contains_key(u)
                ==> registry@.entity_archetype[u] == old(registry)@.entity_archetype[u]) by {
                law_commit_keeps_others(old(registry)@, self@, stored@, self@.touched, u, 0);
            }
            assert forall|u: u128| !self@.touched.contains(u) && old(registry)@.entity_archetype.contains_key(u)
                implies #[trigger] registry@.entity_archetype[u] == old(registry)@.entity_archetype[u] by {
                law_commit_keeps_others(old(registry)@, self@, stored@, self@.touched, u, 0);
            }
        }
    }

    /// The committed data of every attribute of `thing`, or `None` when one has none.
    fn committed_components_of(&self, thing: u128, attrs: &Vec<u64>, arch: u64, stored: &ByteMap) -> (r:
        Option<HashMap<u64, Vec<u8>>>)
        requires
            self.wf(),
            stored.wf(),
            self@.attrs.contains_key(thing),
            !self@.attrs[thing].is_empty(),
            strictly_sorted(attrs@),
            attrs@.to_set() == self@.attrs[thing],
            arch == archetype_id_of(self@.attrs[thing]),
        ensures
            r is Some <==> cache_complete(self@, stored@, thing),
            r matches Some(m) ==> m@.map_values(|v: Vec<u8>| v@) == committed_components(self@, stored@, thing),
    {
        let ghost target = committed_components(self@, stored@, thing);
        let mut comps: HashMap<u64, Vec<u8>> = HashMap::new();
        let mut i: usize = 0;
        while i < attrs.len()
            invariant
                self.wf(),
                stored.wf(),
                i <= attrs@.len(),
                strictly_sorted(attrs@),
                self@.attrs.contains_key(thing),
                attrs@.to_set() == self@.attrs[thing],
                arch == archetype_id_of(self@.attrs[thing]),
                target == committed_components(self@, stored@, thing),
                forall|j: int| 0 <= j < i ==> committed_value(self@, stored@, thing, #[trigger] attrs@[j]) is Some,
                comps@.map_values(|v: Vec<u8>| v@) == target.restrict(attrs@.take(i as int).to_set()),
            decreases attrs@.len() - i,
        {
            let h = attrs[i];
            let key = KeyEncoder::encode(arch, h, thing);
            let ghost pre = comps@;
            assert(attrs@.to_set().contains(h));
            assert(attrs@.take(i + 1).to_set() =~= attrs@.take(i as int).to_set().insert(h));
            assert(!attrs@.take(i as int).to_set().contains(h)) by {
                if attrs@.take(i as int).to_set().contains(h) {
                    let k = choose|k: int| 0 <= k < i && attrs@.take(i as int)[k] == h;
                    assert(attrs@[k] < attrs@[i as int]);
                }
            }
            assert(!pre.contains_key(h)) by {
                if pre.contains_key(h) {
                    assert(pre.map_values(|v: Vec<u8>| v@).contains_key(h));
                }
            }
            let value: Option<Vec<u8>> = match self.pending_data.get(key.as_slice()) {
                Some(Some(d)) => Some(copy_bytes(d.as_slice())),
                _ => match stored.get(key.as_slice()) {
                    Some(Some(d)) => Some(copy_bytes(d.as_slice())),
                    _ => None,
                },
            };
            assert(opt_bytes(value) == committed_value(self@, stored@, thing, h));
            match value {
                Some(d) => {
                    let ghost dv = d@;
                    comps.insert(h, d);
                    assert(target.contains_key(h) && target[h] == dv);
                    assert(comps@.map_values(|v: Vec<u8>| v@) =~= pre.map_values(|v: Vec<u8>| v@).insert(h, dv));
                    assert(target.restrict(attrs@.take(i + 1).to_set()) =~= target.restrict(attrs@.take(i as int).to_set()).insert(h, dv));
                },
                None => {
                    assert(self@.attrs[thing].contains(h));
                    return None;
                },
            }
            i = i + 1;
        }
        assert(attrs@.take(attrs@.len() as int) =~= attrs@);
        assert(target.restrict(attrs@.to_set()) =~= target);
        assert forall|h: u64| #[trigger] self@.attrs[thing].contains(h) implies committed_value(self@, stored@, thing, h) is Some by {
            assert(attrs@.to_set().contains(h));
            let j = choose|j: int| 0 <= j < attrs@.len() && attrs@[j] == h;
        }
        Some(comps)
    }
}

/// Copying data between archetypes leaves attribute sets and fetched values alone, and
/// only adds to the buffered values.
pub proof fn lemma_migrated_frame(v: TxView, from: u64, to: u64, t: u128, gs: Seq<u64>)
    ensures
        v.migrated(from, to, t, gs).attrs == v.attrs,
        v.migrated(from, to, t, gs).touched == v.touched,
        v.migrated(from, to, t, gs).fetched == v.fetched,
        forall|k: Seq<u8>| #![trigger last_write(v.migrated(from, to, t, gs).log, k)]
            k.len() != 32 ==> last_write(v.migrated(from, to, t, gs).log, k) == last_write(v.log, k),
        v.pending.dom().subset_of(v.migrated(from, to, t, gs).pending.dom()),
    decreases gs.len(),
{
    if gs.len() > 0 {
        lemma_migrated_frame(v, from, to, t, gs.drop_last());
        crate::storage::lemma_le_bytes_roundtrip();
        let w = v.migrated(from, to, t, gs.drop_last());
        assert(data_key(to, gs.last(), t).len() == 32);
        assert forall|k: Seq<u8>| k.len() != 32 implies last_write(v.migrated(from, to, t, gs).log, k)
            == last_write(v.log, k) by {
            let m = v.migrated(from, to, t, gs);
            if m.log.len() > w.log.len() {
                assert(m.log.drop_last() =~= w.log);
            } else {
                assert(m.log =~= w.log);
            }
            assert(last_write(w.log, k) == last_write(v.log, k));
        }
    }
}

/// Copying data between archetypes keeps the values of the source keys, gives every
/// copied attribute its source value under the target archetype, and leaves every key
/// that is not a target key of `gs` as it was.
pub proof fn lemma_migrated_reads(v: TxView, from: u64, to: u64, t: u128, gs: Seq<u64>)
    requires
        gs.no_duplicates(),
        forall|j: int| 0 <= j < gs.len() ==> v.known(#[trigger] data_key(from, gs[j], t)),
    ensures
        forall|j: int|
            0 <= j < gs.len() ==> v.migrated(from, to, t, gs).read(#[trigger] data_key(from, gs[j], t))
                == v.read(data_key(from, gs[j], t)),
        forall|j: int|
            0 <= j < gs.len() && v.read(data_key(from, gs[j], t)) is Some ==> v.migrated(
                from,
                to,
                t,
                gs,
            ).read(#[trigger] data_key(to, gs[j], t)) == v.read(data_key(from, gs[j], t)),
        forall|k: Seq<u8>|
            (forall|j: int| 0 <= j < gs.len() ==> k != #[trigger] data_key(to, gs[j], t))
                ==> #[trigger] v.migrated(from, to, t, gs).pending.contains_key(k) == v.pending.contains_key(k)
                && v.migrated(from, to, t, gs).read(k) == v.read(k),
    decreases gs.len(),
{
    if gs.len() > 0 {
        let d = gs.drop_last();
        let g = gs.last();
        let n = gs.len() - 1;
        assert forall|j: int| 0 <= j < d.len() implies v.known(#[trigger] data_key(from, d[j], t)) by {
            assert(d[j] == gs[j]);
        }
        lemma_migrated_reads(v, from, to, t, d);
        let w = v.migrated(from, to, t, d);
        let kf = data_key(from, g, t);
        let kt = data_key(to, g, t);
        assert(v.known(data_key(from, gs[n], t)));
        assert(!d.contains(g)) by {
            if d.contains(g) {
                let j = choose|j: int| 0 <= j < d.len() && d[j] == g;
                assert(gs[j] == gs[n]);
            }
        }
        // The source key of `g` was not written by the earlier steps unless `from == to`.
        assert(w.read(kf) == v.read(kf)) by {
            assert forall|j: int| 0 <= j < d.len() implies kf != #[trigger] data_key(to, d[j], t) by {
                crate::storage::law_data_key_injective(from, g, t, to, d[j], t);
            }
        }
        assert forall|j: int| 0 <= j < gs.len() implies v.migrated(from, to, t, gs).read(#[trigger] data_key(from, gs[j], t))
            == v.read(data_key(from, gs[j], t)) by {
            crate::storage::law_data_key_injective(from, gs[j], t, to, g, t);
            if j < n {
                assert(d[j] == gs[j]);
            }
        }
        assert forall|j: int|
            0 <= j < gs.len() && v.read(data_key(from, gs[j], t)) is Some implies v.migrated(from, to, t, gs).read(
                #[trigger] data_key(to, gs[j], t),
            ) == v.read(data_key(from, gs[j], t)) by {
            crate::storage::law_data_key_injective(to, gs[j], t, to, g, t);
            if j < n {
                assert(d[j] == gs[j]);
                assert(gs[j] != g);
            }
        }
        assert forall|k: Seq<u8>|
            (forall|j: int| 0 <= j < gs.len() ==> k != #[trigger] data_key(to, gs[j], t))
                implies #[trigger] v.migrated(from, to, t, gs).pending.contains_key(k) == v.pending.contains_key(k)
                && v.migrated(from, to, t, gs).read(k) == v.read(k) by {
            assert(k != data_key(to, gs[n], t));
            assert forall|j: int| 0 <= j < d.len() implies k != #[trigger] data_key(to, d[j], t) by {
                assert(d[j] == gs[j]);
                assert(k != data_key(to, gs[j], t));
            }
        }
    }
}

/// Law: adding a missing attribute moves the entity to the archetype of its grown set,
/// where the new attribute reads as the data added and every attribute that had data
/// keeps it.
pub proof fn law_add(v: TxView, t: u128, h: u64, bytes: Seq<u8>, g: u64)
    requires
        v.attrs.contains_key(t),
        v.attrs[t].finite(),
        !v.attrs[t].contains(h),
        v.add_need(t, h) is None,
    ensures
        v.added(t, h, bytes).attrs[t] == v.attrs[t].insert(h),
        v.added(t, h, bytes).read(data_key(archetype_id_of(v.attrs[t].insert(h)), h, t)) == Some(
            bytes,
        ),
        v.attrs[t].contains(g) && v.read(data_key(archetype_id_of(v.attrs[t]), g, t)) is Some
            ==> v.added(t, h, bytes).read(data_key(archetype_id_of(v.attrs[t].insert(h)), g, t))
            == v.read(data_key(archetype_id_of(v.attrs[t]), g, t)),
{
    let a = v.attrs[t];
    let na = archetype_id_of(a.insert(h));
    crate::storage::law_data_key_injective(na, h, t, na, g, t);
    if !a.is_empty() && a.contains(g) {
        let oa = archetype_id_of(a);
        let gs = canonical(a);
        crate::ids::lemma_canonical_exists(a);
        lemma_first_missing_none(v, oa, t, gs);
        assert(gs.no_duplicates()) by {
            assert forall|i: int, j: int| 0 <= i < gs.len() && 0 <= j < gs.len() && i != j implies gs[i] != gs[j] by {
                if i < j {
                    assert(gs[i] < gs[j]);
                } else {
                    assert(gs[j] < gs[i]);
                }
            }
        }
        lemma_migrated_reads(v, oa, na, t, gs);
        assert(gs.to_set().contains(g));
        let j = choose|j: int| 0 <= j < gs.len() && gs[j] == g;
        assert(v.migrated(oa, na, t, gs).read(data_key(na, gs[j], t)) == v.read(data_key(oa, gs[j], t)) || v.read(data_key(oa, gs[j], t)) is None);
    }
}

/// Law: adding an attribute the entity already has changes nothing, and so does removing
/// one it lacks; destroying an entity twice is destroying it once.
pub proof fn law_noops(v: TxView, t: u128, h: u64, bytes: Seq<u8>)
    requires
        v.attrs.contains_key(t),
        v.attrs[t].finite(),
    ensures
        v.attrs[t].contains(h) ==> v.added(t, h, bytes) == v,
        !v.attrs[t].contains(h) ==> v.removed(t, h) == v,
        v.destroyed(t).destroyed(t) == v.destroyed(t),
{
    lemma_destroyed_each_attrs(v, archetype_id_of(v.attrs[t]), t, canonical(v.attrs[t]));
    if !v.attrs[t].is_empty() {
        let a = v.attrs[t];
        crate::ids::lemma_canonical_exists(a);
        assert(v.destroyed(t).attrs[t] =~= Set::<u64>::empty());
    }
}

/// Destroying attributes one by one empties the entity's attribute set of exactly those.
pub proof fn lemma_destroyed_each_attrs(v: TxView, arch: u64, t: u128, gs: Seq<u64>)
    requires
        v.attrs.contains_key(t),
    ensures
        v.destroyed_each(arch, t, gs).attrs.contains_key(t),
        v.destroyed_each(arch, t, gs).attrs[t] == v.attrs[t].difference(gs.to_set()),
        forall|u: u128| u != t ==> #[trigger] v.destroyed_each(arch, t, gs).attrs.contains_key(u) == v.attrs.contains_key(u),
    decreases gs.len(),
{
    if gs.len() > 0 {
        lemma_destroyed_each_attrs(v, arch, t, gs.drop_last());
        assert(v.attrs[t].difference(gs.drop_last().to_set()).remove(gs.last()) =~= v.attrs[t].difference(gs.to_set()));
    } else {
        assert(v.attrs[t].difference(gs.to_set()) =~= v.attrs[t]);
    }
}

/// A strictly increasing enumeration has no duplicates.
proof fn lemma_canonical_no_duplicates(a: Set<u64>)
    requires
        a.finite(),
    ensures
        canonical(a).no_duplicates(),
        canonical(a).to_set() == a,
{
    crate::ids::lemma_canonical_exists(a);
    let gs = canonical(a);
    assert forall|i: int, j: int| 0 <= i < gs.len() && 0 <= j < gs.len() && i != j implies gs[i] != gs[j] by {
        if i < j {
            assert(gs[i] < gs[j]);
        } else {
            assert(gs[j] < gs[i]);
        }
    }
}

/// Law: removing an attribute deletes its data, and moves the entity to the archetype of
/// its remaining attributes, where every remaining attribute that had data keeps it.
pub proof fn law_remove(v: TxView, t: u128, h: u64, g: u64)
    requires
        v.attrs.contains_key(t),
        v.attrs[t].finite(),
        v.attrs[t].contains(h),
        v.remove_need(t, h) is None,
    ensures
        v.removed(t, h).attrs[t] == v.attrs[t].remove(h),
        v.removed(t, h).read(data_key(archetype_id_of(v.attrs[t]), h, t)) is None,
        v.attrs[t].contains(g) && g != h && v.read(data_key(archetype_id_of(v.attrs[t]), g, t))
            is Some ==> v.removed(t, h).read(data_key(archetype_id_of(v.attrs[t].remove(h)), g, t))
            == v.read(data_key(archetype_id_of(v.attrs[t]), g, t)),
{
    let a = v.attrs[t];
    let r = a.remove(h);
    let oa = archetype_id_of(a);
    let kh = data_key(oa, h, t);
    let w = v.buf_delete(kh).with_attrs(t, r).push_delete(entity_attr_key_seq(t, h)).push_delete(
        attr_index_key_seq(h, t),
    );
    if !r.is_empty() {
        let nr = archetype_id_of(r);
        let gs = canonical(r);
        lemma_canonical_no_duplicates(r);
        lemma_first_missing_none(v, oa, t, gs);
        assert forall|j: int| 0 <= j < gs.len() implies w.known(#[trigger] data_key(oa, gs[j], t)) by {
            assert(v.known(data_key(oa, gs[j], t)));
        }
        lemma_migrated_reads(w, oa, nr, t, gs);
        lemma_migrated_frame(w, oa, nr, t, gs);
        assert forall|j: int| 0 <= j < gs.len() implies kh != #[trigger] data_key(nr, gs[j], t) by {
            assert(gs.to_set().contains(gs[j]));
            crate::storage::law_data_key_injective(oa, h, t, nr, gs[j], t);
        }
        if a.contains(g) && g != h {
            assert(gs.to_set().contains(g));
            let j = choose|j: int| 0 <= j < gs.len() && gs[j] == g;
            crate::storage::law_data_key_injective(oa, h, t, oa, g, t);
            assert(w.read(data_key(oa, g, t)) == v.read(data_key(oa, g, t)));
        }
    }
}

/// Law: setting an attribute the entity has overwrites its data in place; setting one it
/// lacks adds it.
pub proof fn law_set(v: TxView, t: u128, h: u64, bytes: Seq<u8>)
    requires
        v.attrs.contains_key(t),
    ensures
        v.attrs[t].contains(h) ==> v.set_value(t, h, bytes).attrs == v.attrs && v.set_value(
            t,
            h,
            bytes,
        ).read(data_key(archetype_id_of(v.attrs[t]), h, t)) == Some(bytes),
        !v.attrs[t].contains(h) ==> v.set_value(t, h, bytes) == v.added(t, h, bytes),
{
}

/// Deleting the data of every attribute of `gs` leaves each of them reading as nothing.
proof fn lemma_destroyed_each_reads(v: TxView, arch: u64, t: u128, gs: Seq<u64>, g: u64)
    ensures
        gs.contains(g) ==> v.destroyed_each(arch, t, gs).read(data_key(arch, g, t)) is None,
    decreases gs.len(),
{
    if gs.len() > 0 {
        lemma_destroyed_each_reads(v, arch, t, gs.drop_last(), g);
        if gs.contains(g) && gs.last() != g {
            let j = choose|j: int| 0 <= j < gs.len() && gs[j] == g;
            assert(gs.drop_last()[j] == g);
        }
    }
}

/// Law: destroying an entity leaves it with no attributes, and every attribute it had
/// reads as nothing.
pub proof fn law_destroy(v: TxView, t: u128, g: u64)
    requires
        v.attrs.contains_key(t),
        v.attrs[t].finite(),
    ensures
        v.destroyed(t).attrs[t].is_empty(),
        v.attrs[t].contains(g) ==> v.destroyed(t).read(data_key(archetype_id_of(v.attrs[t]), g, t))
            is None,
{
    let a = v.attrs[t];
    if !a.is_empty() {
        lemma_canonical_no_duplicates(a);
        lemma_destroyed_each_attrs(v, archetype_id_of(a), t, canonical(a));
        assert(v.destroyed(t).attrs[t] =~= Set::<u64>::empty());
        if a.contains(g) {
            assert(canonical(a).to_set().contains(g));
            lemma_destroyed_each_reads(v, archetype_id_of(a), t, canonical(a), g);
        }
    }
}

/// Law: after relating two entities, both records of the edge read as its data; after
/// unrelating them, both read as nothing.
pub proof fn law_edges(v: TxView, e: u64, from: u128, to: u128, bytes: Seq<u8>)
    ensures
        v.related(e, from, to, bytes).read(edge_key_seq(e, from, to)) == Some(bytes),
        v.related(e, from, to, bytes).read(reverse_edge_key_seq(e, to, from)) == Some(bytes),
        v.unrelated(e, from, to).read(edge_key_seq(e, from, to)) is None,
        v.unrelated(e, from, to).read(reverse_edge_key_seq(e, to, from)) is None,
{
    assert(edge_key_seq(e, from, to)[1] != reverse_edge_key_seq(e, to, from)[1]);
}

/// Law: committing a transaction caches every entity it looked at exactly when the entity
/// has attributes and each of them has committed data; a cached entity sits in the
/// archetype of its attribute set and reads, for each attribute, its committed data; an
/// entity that is not cached reads nothing.
pub proof fn law_commit_cache(
    r: RegistryView,
    tx: TxView,
    stored: Map<Seq<u8>, Option<Seq<u8>>>,
    n: int,
    k: int,
    h: u64,
)
    requires
        r.wf(),
        tx.touched.no_duplicates(),
        tx.touched.to_set() == tx.attrs.dom(),
        forall|t: u128| #[trigger] tx.attrs.contains_key(t) ==> tx.attrs[t].finite(),
        0 <= k < n <= tx.touched.len(),
    ensures
        ({
            let c = cache_after(r, tx, stored, tx.touched.take(n));
            let t = tx.touched[k];
            &&& c.wf()
            &&& c.entity_archetype.contains_key(t) <==> (!tx.attrs[t].is_empty() && cache_complete(
                tx,
                stored,
                t,
            ))
            &&& c.entity_archetype.contains_key(t) ==> c.entity_archetype[t] == archetype_id_of(
                tx.attrs[t],
            )
            &&& c.entity_archetype.contains_key(t) && tx.attrs[t].contains(h) ==> c.read(t, h)
                == committed_value(tx, stored, t, h)
            &&& !c.entity_archetype.contains_key(t) ==> c.read(t, h) is None
        }),
    decreases n,
{
    let t = tx.touched[k];
    let ts = tx.touched.take(n);
    lemma_cache_after_wf(r, tx, stored, ts);
    assert(ts.drop_last() =~= tx.touched.take(n - 1));
    assert(ts.last() == tx.touched[n - 1]);
    lemma_cache_after_wf(r, tx, stored, tx.touched.take(n - 1));
    let prev = cache_after(r, tx, stored, tx.touched.take(n - 1));
    let u = tx.touched[n - 1];
    assert(tx.touched.to_set().contains(u));
    if k == n - 1 {
        if !(tx.attrs[t].is_empty() || !cache_complete(tx, stored, t)) {
            let comps = committed_components(tx, stored, t);
            assert(comps.dom() =~= tx.attrs[t]);
            if tx.attrs[t].contains(h) {
                crate::archetype::law_set_then_read(prev, t, comps, h);
            } else {
                crate::archetype::law_set_then_read(prev, t, comps, tx.attrs[t].choose());
            }
        }
    } else {
        law_commit_cache(r, tx, stored, n - 1, k, h);
        assert(tx.touched[k] != tx.touched[n - 1]);
        assert(u != t);
        if tx.attrs[u].is_empty() || !cache_complete(tx, stored, u) {
            crate::archetype::lemma_removed_entity(prev, u, t, h);
        } else {
            crate::archetype::law_set_isolated(prev, u, committed_components(tx, stored, u), t, h);
        }
    }
}

/// Law: committing leaves every cached entity that the transaction did not look at as it
/// was: it stays in the same archetype, or stays uncached, and reads the same data.
pub proof fn law_commit_keeps_others(
    r: RegistryView,
    tx: TxView,
    stored: Map<Seq<u8>, Option<Seq<u8>>>,
    ts: Seq<u128>,
    u: u128,
    h: u64,
)
    requires
        r.wf(),
        !ts.contains(u),
    ensures
        cache_after(r, tx, stored, ts).read(u, h) == r.read(u, h),
        cache_after(r, tx, stored, ts).entity_archetype.contains_key(u) == r.entity_archetype.contains_key(u),
        r.entity_archetype.contains_key(u) ==> cache_after(r, tx, stored, ts).entity_archetype[u]
            == r.entity_archetype[u],
    decreases ts.len(),
{
    if ts.len() > 0 {
        let d = ts.drop_last();
        assert(!d.contains(u)) by {
            if d.contains(u) {
                let q = choose|q: int| 0 <= q < d.len() && d[q] == u;
                assert(ts[q] == u);
            }
        }
        assert(ts.last() != u) by {
            assert(ts[ts.len() - 1] == ts.last());
        }
        law_commit_keeps_others(r, tx, stored, d, u, h);
        lemma_cache_after_wf(r, tx, stored, d);
        let prev = cache_after(r, tx, stored, d);
        let t = ts.last();
        if tx.attrs[t].is_empty() || !cache_complete(tx, stored, t) {
            crate::archetype::lemma_removed_entity(prev, t, u, h);
        } else {
            crate::archetype::law_set_isolated(prev, t, committed_components(tx, stored, t), u, h);
        }
    }
}

/// Committing keeps the cache well formed.
pub proof fn lemma_cache_after_wf(
    r: RegistryView,
    tx: TxView,
    stored: Map<Seq<u8>, Option<Seq<u8>>>,
    ts: Seq<u128>,
)
    requires
        r.wf(),
    ensures
        cache_after(r, tx, stored, ts).wf(),
    decreases ts.len(),
{
    if ts.len() > 0 {
        lemma_cache_after_wf(r, tx, stored, ts.drop_last());
        let prev = cache_after(r, tx, stored, ts.drop_last());
        let u = ts.last();
        if tx.attrs[u].is_empty() || !cache_complete(tx, stored, u) {
            crate::archetype::lemma_removed_entity(prev, u, u, 0);
        } else {
            crate::archetype::lemma_with_entity_components_wf(prev, u, committed_components(tx, stored, u));
        }
    }
}

/// When no data key of `gs` is missing, every one of them is known.
pub proof fn lemma_first_missing_none(v: TxView, arch: u64, t: u128, gs: Seq<u64>)
    requires
        v.first_missing(arch, t, gs) is None,
    ensures
        forall|j: int| 0 <= j < gs.len() ==> v.known(#[trigger] data_key(arch, gs[j], t)),
    decreases gs.len(),
{
    if gs.len() > 0 {
        lemma_first_missing_none(v, arch, t, gs.drop_first());
        assert forall|j: int| 0 <= j < gs.len() implies v.known(#[trigger] data_key(arch, gs[j], t)) by {
            if j > 0 {
                assert(gs.drop_first()[j - 1] == gs[j]);
            }
        }
    }
}

/// Deleting the data key of an attribute outside `gs`, and changing attribute sets and
/// records, keeps every data key of `gs` known.
pub proof fn lemma_first_missing_after_delete(
    before: TxView,
    after: TxView,
    arch: u64,
    t: u128,
    gs: Seq<u64>,
    h: u64,
)
    requires
        forall|j: int| 0 <= j < gs.len() ==> before.known(#[trigger] data_key(arch, gs[j], t)),
        before.pending.dom().subset_of(after.pending.dom()),
        after.fetched == before.fetched,
    ensures
        after.first_missing(arch, t, gs) is None,
    decreases gs.len(),
{
    if gs.len() > 0 {
        assert(before.known(data_key(arch, gs[0], t)));
        assert forall|j: int| 0 <= j < gs.drop_first().len() implies before.known(#[trigger] data_key(arch, gs.drop_first()[j], t)) by {
            assert(gs.drop_first()[j] == gs[j + 1]);
        }
        lemma_first_missing_after_delete(before, after, arch, t, gs.drop_first(), h);
    }
}

} // verus!

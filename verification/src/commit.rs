//! The write batch that commits a transaction, and what it leaves in the store.
//!
//! The batch holds every write and delete of the transaction in the order the
//! operations made them, so after the commit each key holds what the latest of them
//! left there.
use crate::archetype::RegistryView;
use crate::ids::archetype_id_of;
use crate::ids::canonical;
use crate::storage::{
    attr_index_key_seq, data_key, edge_key_seq, entity_archetype_key_seq, entity_attr_key_seq,
    id_at, le64, lemma_le_bytes_roundtrip, lemma_record_keys, reverse_edge_key_seq,
};
pub use crate::tx::{ops_view, BatchOp, BatchOpView};
use crate::tx::{
    cache_after, cache_complete, cache_read_needed, committed_value, last_write, log_agrees,
    pending_value, read_back_key, TxCore, TxView,
};
use vstd::prelude::*;
use vstd::slice::slice_to_vec;

verus! {

broadcast use vstd::seq_lib::group_seq_properties;

/// The batch that commits a transaction: its writes and deletes, in the order the
/// operations made them.
pub open spec fn batch_of(tx: TxView) -> Seq<BatchOpView> {
    tx.log
}

/// A store after the operations of a batch, applied in order.
pub open spec fn apply_ops(store: Map<Seq<u8>, Seq<u8>>, ops: Seq<BatchOpView>) -> Map<
    Seq<u8>,
    Seq<u8>,
>
    decreases ops.len(),
{
    if ops.len() == 0 {
        store
    } else {
        let s = apply_ops(store, ops.drop_last());
        match ops.last() {
            BatchOpView::Delete(k) => s.remove(k),
            BatchOpView::Put(k, v) => s.insert(k, v),
        }
    }
}

/// What key `k` holds after `ops` applied to `store`, as `Option`: the latest write, or
/// nothing after a latest delete, or what the store held when no operation touches it.
pub open spec fn after_ops(store: Map<Seq<u8>, Seq<u8>>, ops: Seq<BatchOpView>, k: Seq<u8>) -> Option<
    Seq<u8>,
> {
    match last_write(ops, k) {
        Some(w) => w,
        None => if store.contains_key(k) {
            Some(store[k])
        } else {
            None
        },
    }
}

/// `k` as a map entry: its value when present.
pub open spec fn entry(m: Map<Seq<u8>, Seq<u8>>, k: Seq<u8>) -> Option<Seq<u8>> {
    if m.contains_key(k) {
        Some(m[k])
    } else {
        None
    }
}

fn copy_bytes(v: &[u8]) -> (r: Vec<u8>)
    ensures
        r@ == v@,
{
    slice_to_vec(v)
}

/// The write batch that commits `tx`.
pub fn batch_ops(tx: &TxCore) -> (ops: Vec<BatchOp>)
    ensures
        ops_view(ops@) == batch_of(tx@),
{
    let log = tx.ops();
    let mut ops: Vec<BatchOp> = Vec::new();
    let mut i: usize = 0;
    while i < log.len()
        invariant
            ops_view(log@) == tx@.log,
            i <= log@.len(),
            ops_view(ops@) == tx@.log.take(i as int),
        decreases log@.len() - i,
    {
        let ghost pre = ops@;
        let op = match &log[i] {
            BatchOp::Delete(k) => BatchOp::Delete(copy_bytes(k.as_slice())),
            BatchOp::Put(k, v) => BatchOp::Put(copy_bytes(k.as_slice()), copy_bytes(v.as_slice())),
        };
        assert(op@ == log@[i as int]@);
        ops.push(op);
        assert(ops_view(ops@) =~= ops_view(pre).push(op@));
        assert(tx@.log.take(i + 1) =~= tx@.log.take(i as int).push(tx@.log[i as int]));
        i = i + 1;
    }
    assert(tx@.log.take(i as int) =~= tx@.log);
    ops
}

/// Applying a batch leaves each key as the latest operation on it left it.
pub proof fn lemma_apply_ops(store: Map<Seq<u8>, Seq<u8>>, ops: Seq<BatchOpView>, k: Seq<u8>)
    ensures
        entry(apply_ops(store, ops), k) == after_ops(store, ops, k),
    decreases ops.len(),
{
    if ops.len() > 0 {
        lemma_apply_ops(store, ops.drop_last(), k);
    }
}

/// Law: after a commit, every key holds what the transaction's latest operation on it
/// left there: the value of a write, nothing after a delete; a key that the transaction
/// did not touch holds what it held before.
pub proof fn law_commit_batch(store: Map<Seq<u8>, Seq<u8>>, tx: TxView, k: Seq<u8>)
    ensures
        last_write(tx.log, k) matches Some(Some(v)) ==> apply_ops(store, batch_of(tx)).contains_key(
            k,
        ) && apply_ops(store, batch_of(tx))[k] == v,
        last_write(tx.log, k) == Some(None::<Seq<u8>>) ==> !apply_ops(
            store,
            batch_of(tx),
        ).contains_key(k),
        last_write(tx.log, k) is None ==> (apply_ops(store, batch_of(tx)).contains_key(k)
            == store.contains_key(k) && (store.contains_key(k) ==> apply_ops(store, batch_of(tx))[k]
            == store[k])),
{
    lemma_apply_ops(store, tx.log, k);
}

/// Law: after a commit, the store holds under every data and edge key that the
/// transaction wrote or deleted exactly what the transaction reads there: the value it
/// last wrote, or nothing after a later delete.
pub proof fn law_commit_reads(store: Map<Seq<u8>, Seq<u8>>, tx: TxView, k: Seq<u8>)
    requires
        log_agrees(tx),
        tx.pending.contains_key(k),
        read_back_key(k),
    ensures
        entry(apply_ops(store, batch_of(tx)), k) == tx.pending[k],
{
    lemma_apply_ops(store, tx.log, k);
}

proof fn lemma_committed_value_stored(
    store: Map<Seq<u8>, Seq<u8>>,
    tx: TxView,
    stored: Map<Seq<u8>, Option<Seq<u8>>>,
    t: u128,
    g: u64,
)
    requires
        log_agrees(tx),
        tx.attrs.contains_key(t),
        tx.attrs[t].contains(g),
        forall|key: Seq<u8>| #[trigger] stored.contains_key(key) ==> stored[key] == entry(
            apply_ops(store, batch_of(tx)),
            key,
        ),
        forall|key: Seq<u8>| cache_read_needed(tx, key) ==> #[trigger] stored.contains_key(key),
    ensures
        committed_value(tx, stored, t, g) == entry(
            apply_ops(store, batch_of(tx)),
            data_key(archetype_id_of(tx.attrs[t]), g, t),
        ),
{
    let dk = data_key(archetype_id_of(tx.attrs[t]), g, t);
    lemma_le_bytes_roundtrip();
    assert(dk.len() == 32);
    if pending_value(tx, dk) {
        law_commit_reads(store, tx, dk);
    } else {
        assert(tx.attrs[t].contains(g));
        assert(cache_read_needed(tx, dk));
    }
}

/// Law: after a commit, when the store's answers read back for the cache update are what
/// the store then holds, the cache agrees with the store on every entity the transaction
/// looked at: it is cached exactly when it has attributes and the store holds data for
/// each of them under the archetype of its attribute set; it then sits in that archetype
/// and reads, for every attribute, what the store holds; otherwise it reads nothing.
pub proof fn law_cache_matches_store(
    r: RegistryView,
    store: Map<Seq<u8>, Seq<u8>>,
    tx: TxView,
    stored: Map<Seq<u8>, Option<Seq<u8>>>,
    k: int,
    h: u64,
)
    requires
        r.wf(),
        tx.touched.no_duplicates(),
        tx.touched.to_set() == tx.attrs.dom(),
        forall|t: u128| #[trigger] tx.attrs.contains_key(t) ==> tx.attrs[t].finite(),
        log_agrees(tx),
        0 <= k < tx.touched.len(),
        forall|key: Seq<u8>| #[trigger] stored.contains_key(key) ==> stored[key] == entry(
            apply_ops(store, batch_of(tx)),
            key,
        ),
        forall|key: Seq<u8>| cache_read_needed(tx, key) ==> #[trigger] stored.contains_key(key),
    ensures
        ({
            let s2 = apply_ops(store, batch_of(tx));
            let c = cache_after(r, tx, stored, tx.touched);
            let t = tx.touched[k];
            let a = tx.attrs[t];
            let arch = archetype_id_of(a);
            &&& c.entity_archetype.contains_key(t) <==> (!a.is_empty() && forall|g: u64|
                #[trigger] a.contains(g) ==> entry(s2, data_key(arch, g, t)) is Some)
            &&& c.entity_archetype.contains_key(t) ==> c.entity_archetype[t] == arch
            &&& c.entity_archetype.contains_key(t) && a.contains(h) ==> c.read(t, h) == entry(
                s2,
                data_key(arch, h, t),
            )
            &&& !c.entity_archetype.contains_key(t) ==> c.read(t, h) is None
        }),
{
    let t = tx.touched[k];
    let a = tx.attrs[t];
    let arch = archetype_id_of(a);
    let s2 = apply_ops(store, batch_of(tx));
    assert(tx.touched.to_set().contains(t));
    crate::tx::law_commit_cache(r, tx, stored, tx.touched.len() as int, k, h);
    assert(tx.touched.take(tx.touched.len() as int) =~= tx.touched);
    assert forall|g: u64| #[trigger] a.contains(g) implies committed_value(tx, stored, t, g) == entry(
        s2,
        data_key(arch, g, t),
    ) by {
        lemma_committed_value_stored(store, tx, stored, t, g);
    }
    if a.contains(h) {
        lemma_committed_value_stored(store, tx, stored, t, h);
    }
}

/// Law: committing a transaction right after it added attribute `h` to entity `t`
/// leaves in the store every record that the stored-data query path reads: the index
/// record of `h` for `t`, the attribute record, the archetype record naming the archetype
/// of the grown attribute set, and the data under that archetype.
pub proof fn law_add_records(
    store: Map<Seq<u8>, Seq<u8>>,
    v: TxView,
    t: u128,
    h: u64,
    bytes: Seq<u8>,
)
    requires
        v.attrs.contains_key(t),
        !v.attrs[t].contains(h),
    ensures
        ({
            let w = v.added(t, h, bytes);
            let s = apply_ops(store, batch_of(w));
            let na = archetype_id_of(v.attrs[t].insert(h));
            &&& s.contains_key(attr_index_key_seq(h, t))
            &&& s.contains_key(entity_attr_key_seq(t, h))
            &&& s[entity_attr_key_seq(t, h)] == le64(h)
            &&& s.contains_key(entity_archetype_key_seq(t))
            &&& s[entity_archetype_key_seq(t)] == le64(na)
            &&& s.contains_key(data_key(na, h, t))
            &&& s[data_key(na, h, t)] == bytes
        }),
{
    lemma_le_bytes_roundtrip();
    let a = v.attrs[t];
    let n = a.insert(h);
    let na = archetype_id_of(n);
    let m = if a.is_empty() {
        v
    } else {
        v.migrated(archetype_id_of(a), na, t, canonical(a))
    };
    let w = v.added(t, h, bytes);
    let dk = data_key(na, h, t);
    let eta = entity_archetype_key_seq(t);
    let ea = entity_attr_key_seq(t, h);
    let ai = attr_index_key_seq(h, t);
    let p1 = m.log.push(BatchOpView::Put(dk, bytes));
    let p2 = p1.push(BatchOpView::Put(eta, le64(na)));
    let p3 = p2.push(BatchOpView::Put(ea, le64(h)));
    let p4 = p3.push(BatchOpView::Put(ai, Seq::<u8>::empty()));
    assert(w.log == p4);
    assert(dk.len() == 32 && eta.len() == 20 && ea.len() == 27 && ai.len() == 27);
    assert(ai[0] == 97u8 && ea[0] == 101u8);
    assert(p4.drop_last() =~= p3);
    assert(p3.drop_last() =~= p2);
    assert(p2.drop_last() =~= p1);
    assert(p1.drop_last() =~= m.log);
    assert(last_write(p4, ai) == Some(Some(Seq::<u8>::empty())));
    assert(last_write(p3, ea) == Some(Some(le64(h))));
    assert(last_write(p4, ea) == Some(Some(le64(h))));
    assert(last_write(p2, eta) == Some(Some(le64(na))));
    assert(last_write(p3, eta) == Some(Some(le64(na))));
    assert(last_write(p4, eta) == Some(Some(le64(na))));
    assert(last_write(p1, dk) == Some(Some(bytes)));
    assert(last_write(p2, dk) == Some(Some(bytes)));
    assert(last_write(p3, dk) == Some(Some(bytes)));
    assert(last_write(p4, dk) == Some(Some(bytes)));
    law_commit_batch(store, w, ai);
    law_commit_batch(store, w, ea);
    law_commit_batch(store, w, eta);
    law_commit_batch(store, w, dk);
}

/// Law: after relating two entities and committing, both records of the edge hold its
/// data; after unrelating them and committing, neither record is stored.
pub proof fn law_edge_records(
    store: Map<Seq<u8>, Seq<u8>>,
    v: TxView,
    e: u64,
    from: u128,
    to: u128,
    bytes: Seq<u8>,
)
    ensures
        entry(apply_ops(store, batch_of(v.related(e, from, to, bytes))), edge_key_seq(e, from, to))
            == Some(bytes),
        entry(
            apply_ops(store, batch_of(v.related(e, from, to, bytes))),
            reverse_edge_key_seq(e, to, from),
        ) == Some(bytes),
        entry(apply_ops(store, batch_of(v.unrelated(e, from, to))), edge_key_seq(e, from, to))
            is None,
        entry(apply_ops(store, batch_of(v.unrelated(e, from, to))), reverse_edge_key_seq(e, to, from))
            is None,
{
    lemma_le_bytes_roundtrip();
    let f = edge_key_seq(e, from, to);
    let r = reverse_edge_key_seq(e, to, from);
    assert(f.len() == 42 && r.len() == 43);
    let w = v.related(e, from, to, bytes);
    let w1 = v.log.push(BatchOpView::Put(f, bytes));
    assert(w1.drop_last() =~= v.log);
    assert(last_write(w1, f) == Some(Some(bytes)));
    assert(w.log.drop_last() =~= w1);
    assert(f != r);
    assert(last_write(w.log, f) == Some(Some(bytes)));
    lemma_apply_ops(store, w.log, f);
    lemma_apply_ops(store, w.log, r);
    let u = v.unrelated(e, from, to);
    let u1 = v.log.push(BatchOpView::Delete(f));
    assert(u1.drop_last() =~= v.log);
    assert(last_write(u1, f) == Some(None::<Seq<u8>>));
    assert(u.log.drop_last() =~= u1);
    assert(last_write(u.log, f) == Some(None::<Seq<u8>>));
    lemma_apply_ops(store, u.log, f);
    lemma_apply_ops(store, u.log, r);
}

proof fn lemma_unrelated_keys_log(v: TxView, e: u64, from: u128, keys: Seq<Seq<u8>>, k: Seq<u8>)
    ensures
        keys.contains(k) ==> last_write(v.unrelated_keys(e, from, keys).log, k) == Some(
            None::<Seq<u8>>,
        ),
    decreases keys.len(),
{
    if keys.len() > 0 {
        let prev = v.unrelated_keys(e, from, keys.drop_last());
        lemma_unrelated_keys_log(v, e, from, keys.drop_last(), k);
        let w = v.unrelated_keys(e, from, keys);
        let last = keys.last();
        let v2 = match id_at(last, 26) {
            Some(tgt) => prev.buf_delete(reverse_edge_key_seq(e, tgt, from)),
            None => prev,
        };
        assert(w.log.drop_last() =~= v2.log);
        if keys.contains(k) && k != last {
            let j = choose|j: int| 0 <= j < keys.len() && keys[j] == k;
            assert(keys.drop_last()[j] == k);
            match id_at(last, 26) {
                Some(tgt) => {
                    assert(v2.log.drop_last() =~= prev.log);
                },
                None => {},
            }
        }
    }
}

/// Law: after deleting the edges that a scan of `from`'s outgoing records returned and
/// committing, none of those records is stored.
pub proof fn law_unrelate_all_records(
    store: Map<Seq<u8>, Seq<u8>>,
    v: TxView,
    e: u64,
    from: u128,
    keys: Seq<Seq<u8>>,
    k: Seq<u8>,
)
    requires
        keys.contains(k),
    ensures
        entry(apply_ops(store, batch_of(v.unrelated_keys(e, from, keys))), k) is None,
{
    lemma_unrelated_keys_log(v, e, from, keys, k);
    lemma_apply_ops(store, v.unrelated_keys(e, from, keys).log, k);
}

proof fn lemma_migrated_log(v: TxView, from: u64, to: u64, t: u128, gs: Seq<u64>, k: Seq<u8>)
    requires
        forall|j: int| 0 <= j < gs.len() ==> k != #[trigger] data_key(to, gs[j], t),
    ensures
        last_write(v.migrated(from, to, t, gs).log, k) == last_write(v.log, k),
    decreases gs.len(),
{
    if gs.len() > 0 {
        lemma_migrated_log(v, from, to, t, gs.drop_last(), k);
        let w = v.migrated(from, to, t, gs.drop_last());
        let m = v.migrated(from, to, t, gs);
        assert(k != data_key(to, gs[gs.len() - 1], t));
        if m.log.len() > w.log.len() {
            assert(m.log.drop_last() =~= w.log);
        } else {
            assert(m.log =~= w.log);
        }
    }
}

/// Law: after removing an attribute and committing, its data, attribute record and
/// index record are not stored, and the archetype record names the archetype of the
/// remaining attributes, or is not stored when none remain.
pub proof fn law_remove_records(store: Map<Seq<u8>, Seq<u8>>, v: TxView, t: u128, h: u64)
    requires
        v.attrs.contains_key(t),
        v.attrs[t].finite(),
        v.attrs[t].contains(h),
    ensures
        ({
            let s = apply_ops(store, batch_of(v.removed(t, h)));
            let a = v.attrs[t];
            &&& entry(s, data_key(archetype_id_of(a), h, t)) is None
            &&& entry(s, entity_attr_key_seq(t, h)) is None
            &&& entry(s, attr_index_key_seq(h, t)) is None
            &&& a.remove(h).is_empty() ==> entry(s, entity_archetype_key_seq(t)) is None
            &&& !a.remove(h).is_empty() ==> entry(s, entity_archetype_key_seq(t)) == Some(
                le64(archetype_id_of(a.remove(h))),
            )
        }),
{
    lemma_le_bytes_roundtrip();
    let a = v.attrs[t];
    let r = a.remove(h);
    let oa = archetype_id_of(a);
    let dk = data_key(oa, h, t);
    let ea = entity_attr_key_seq(t, h);
    let ai = attr_index_key_seq(h, t);
    let eta = entity_archetype_key_seq(t);
    assert(dk.len() == 32 && eta.len() == 20 && ea.len() == 27 && ai.len() == 27);
    assert(ai[0] == 97u8 && ea[0] == 101u8);
    let w = v.buf_delete(dk).with_attrs(t, r).push_delete(ea).push_delete(ai);
    let l0 = v.log.push(BatchOpView::Delete(dk));
    let l1 = l0.push(BatchOpView::Delete(ea));
    let l2 = l1.push(BatchOpView::Delete(ai));
    assert(w.log == l2);
    assert(l0.drop_last() =~= v.log);
    assert(l1.drop_last() =~= l0);
    assert(l2.drop_last() =~= l1);
    assert(last_write(l0, dk) == Some(None::<Seq<u8>>));
    assert(last_write(l1, dk) == Some(None::<Seq<u8>>));
    assert(last_write(l2, dk) == Some(None::<Seq<u8>>));
    assert(last_write(l1, ea) == Some(None::<Seq<u8>>));
    assert(last_write(l2, ea) == Some(None::<Seq<u8>>));
    assert(last_write(l2, ai) == Some(None::<Seq<u8>>));
    let x = v.removed(t, h);
    if r.is_empty() {
        let l3 = l2.push(BatchOpView::Delete(eta));
        assert(x.log == l3);
        assert(l3.drop_last() =~= l2);
        assert(last_write(l3, dk) == Some(None::<Seq<u8>>));
        assert(last_write(l3, ea) == Some(None::<Seq<u8>>));
        assert(last_write(l3, ai) == Some(None::<Seq<u8>>));
        assert(last_write(l3, eta) == Some(None::<Seq<u8>>));
    } else {
        let nr = archetype_id_of(r);
        let gs = canonical(r);
        crate::ids::lemma_canonical_exists(r);
        let m = w.migrated(oa, nr, t, gs);
        crate::tx::lemma_migrated_frame(w, oa, nr, t, gs);
        assert forall|j: int| 0 <= j < gs.len() implies dk != #[trigger] data_key(nr, gs[j], t) by {
            assert(gs.to_set().contains(gs[j]));
            crate::storage::law_data_key_injective(oa, h, t, nr, gs[j], t);
        }
        lemma_migrated_log(w, oa, nr, t, gs, dk);
        assert(last_write(m.log, ea) == last_write(w.log, ea));
        assert(last_write(m.log, ai) == last_write(w.log, ai));
        let l3 = m.log.push(BatchOpView::Put(eta, le64(nr)));
        assert(x.log == l3);
        assert(l3.drop_last() =~= m.log);
        assert(last_write(l3, dk) == Some(None::<Seq<u8>>));
        assert(last_write(l3, ea) == Some(None::<Seq<u8>>));
        assert(last_write(l3, ai) == Some(None::<Seq<u8>>));
        assert(last_write(l3, eta) == Some(Some(le64(nr))));
    }
    lemma_apply_ops(store, x.log, dk);
    lemma_apply_ops(store, x.log, ea);
    lemma_apply_ops(store, x.log, ai);
    lemma_apply_ops(store, x.log, eta);
}

/// Whether `k` is one of the records of attribute `g` of entity `t` in archetype `arch`:
/// its data, its attribute record or its index record.
pub open spec fn attr_record(arch: u64, t: u128, g: u64, k: Seq<u8>) -> bool {
    k == data_key(arch, g, t) || k == entity_attr_key_seq(t, g) || k == attr_index_key_seq(g, t)
}

proof fn lemma_destroyed_each_log(v: TxView, arch: u64, t: u128, gs: Seq<u64>, k: Seq<u8>)
    ensures
        (exists|j: int| 0 <= j < gs.len() && #[trigger] attr_record(arch, t, gs[j], k)) ==> last_write(
            v.destroyed_each(arch, t, gs).log,
            k,
        ) == Some(None::<Seq<u8>>),
        (forall|j: int| 0 <= j < gs.len() ==> !#[trigger] attr_record(arch, t, gs[j], k))
            ==> last_write(v.destroyed_each(arch, t, gs).log, k) == last_write(v.log, k),
    decreases gs.len(),
{
    if gs.len() > 0 {
        let d = gs.drop_last();
        lemma_destroyed_each_log(v, arch, t, d, k);
        let prev = v.destroyed_each(arch, t, d);
        let h = gs.last();
        let l0 = prev.log.push(BatchOpView::Delete(data_key(arch, h, t)));
        let l1 = l0.push(BatchOpView::Delete(entity_attr_key_seq(t, h)));
        let l2 = l1.push(BatchOpView::Delete(attr_index_key_seq(h, t)));
        assert(v.destroyed_each(arch, t, gs).log == l2);
        assert(l0.drop_last() =~= prev.log);
        assert(l1.drop_last() =~= l0);
        assert(l2.drop_last() =~= l1);
        let dk = data_key(arch, h, t);
        let ea = entity_attr_key_seq(t, h);
        let ai = attr_index_key_seq(h, t);
        lemma_le_bytes_roundtrip();
        assert(dk.len() == 32 && ea.len() == 27 && ai.len() == 27);
        assert(ai[0] == 97u8 && ea[0] == 101u8);
        if k == ai {
            assert(last_write(l2, k) == Some(None::<Seq<u8>>));
        } else if k == ea {
            assert(last_write(l1, k) == Some(None::<Seq<u8>>));
            assert(last_write(l2, k) == Some(None::<Seq<u8>>));
        } else if k == dk {
            assert(last_write(l0, k) == Some(None::<Seq<u8>>));
            assert(last_write(l1, k) == Some(None::<Seq<u8>>));
            assert(last_write(l2, k) == Some(None::<Seq<u8>>));
        }
        if attr_record(arch, t, h, k) {
            assert(attr_record(arch, t, gs[gs.len() - 1], k));
        } else {
            assert(last_write(l0, k) == last_write(prev.log, k));
            assert(last_write(l1, k) == last_write(prev.log, k));
            assert(last_write(l2, k) == last_write(prev.log, k));
            if exists|j: int| 0 <= j < gs.len() && #[trigger] attr_record(arch, t, gs[j], k) {
                let j = choose|j: int| 0 <= j < gs.len() && #[trigger] attr_record(arch, t, gs[j], k);
                assert(d[j] == gs[j]);
            }
            assert forall|j: int| 0 <= j < d.len() && (forall|i: int| 0 <= i < gs.len() ==> !#[trigger] attr_record(arch, t, gs[i], k))
                implies !#[trigger] attr_record(arch, t, d[j], k) by {
                assert(d[j] == gs[j]);
            }
        }
    }
}

/// Law: after destroying an entity and committing, none of the records of any of its
/// attributes is stored, nor its archetype record; every other key holds what it would
/// hold had the destroy not been buffered.
pub proof fn law_destroy_records(
    store: Map<Seq<u8>, Seq<u8>>,
    v: TxView,
    t: u128,
    g: u64,
    k: Seq<u8>,
)
    requires
        v.attrs.contains_key(t),
        v.attrs[t].finite(),
    ensures
        ({
            let a = v.attrs[t];
            let arch = archetype_id_of(a);
            let s = apply_ops(store, batch_of(v.destroyed(t)));
            &&& a.contains(g) ==> entry(s, data_key(arch, g, t)) is None && entry(
                s,
                entity_attr_key_seq(t, g),
            ) is None && entry(s, attr_index_key_seq(g, t)) is None
            &&& !a.is_empty() ==> entry(s, entity_archetype_key_seq(t)) is None
            &&& (k != entity_archetype_key_seq(t) && forall|h: u64|
                a.contains(h) ==> !#[trigger] attr_record(arch, t, h, k)) ==> entry(s, k) == entry(
                apply_ops(store, batch_of(v)),
                k,
            )
        }),
{
    let a = v.attrs[t];
    let arch = archetype_id_of(a);
    let x = v.destroyed(t);
    lemma_apply_ops(store, x.log, k);
    lemma_apply_ops(store, v.log, k);
    if !a.is_empty() {
        let gs = canonical(a);
        crate::ids::lemma_canonical_exists(a);
        let de = v.destroyed_each(arch, t, gs);
        let eta = entity_archetype_key_seq(t);
        assert(x.log.drop_last() =~= de.log);
        assert(last_write(x.log, eta) == Some(None::<Seq<u8>>));
        lemma_apply_ops(store, x.log, eta);
        if a.contains(g) {
            assert(gs.to_set().contains(g));
            let j = choose|j: int| 0 <= j < gs.len() && gs[j] == g;
            let keys = seq![data_key(arch, g, t), entity_attr_key_seq(t, g), attr_index_key_seq(g, t)];
            assert forall|i: int| 0 <= i < 3 implies last_write(x.log, #[trigger] keys[i]) == Some(
                None::<Seq<u8>>,
            ) by {
                assert(attr_record(arch, t, gs[j], keys[i]));
                lemma_destroyed_each_log(v, arch, t, gs, keys[i]);
                if keys[i] != eta {
                }
                lemma_le_bytes_roundtrip();
                assert(eta.len() == 20);
                assert(keys[i].len() == 32 || keys[i].len() == 27);
            }
            lemma_apply_ops(store, x.log, keys[0]);
            lemma_apply_ops(store, x.log, keys[1]);
            lemma_apply_ops(store, x.log, keys[2]);
        }
        if k != eta && forall|h: u64| a.contains(h) ==> !#[trigger] attr_record(arch, t, h, k) {
            assert forall|j: int| 0 <= j < gs.len() implies !#[trigger] attr_record(arch, t, gs[j], k) by {
                assert(gs.to_set().contains(gs[j]));
            }
            lemma_destroyed_each_log(v, arch, t, gs, k);
        }
    }
}

proof fn lemma_migrated_last_write(v: TxView, from: u64, to: u64, t: u128, gs: Seq<u64>, j: int)
    requires
        gs.no_duplicates(),
        forall|i: int| 0 <= i < gs.len() ==> v.known(#[trigger] data_key(from, gs[i], t)),
        0 <= j < gs.len(),
        v.read(data_key(from, gs[j], t)) is Some,
    ensures
        last_write(v.migrated(from, to, t, gs).log, data_key(to, gs[j], t)) == Some(
            v.read(data_key(from, gs[j], t)),
        ),
    decreases gs.len(),
{
    let n = gs.len() as int;
    let d = gs.drop_last();
    let w = v.migrated(from, to, t, d);
    let m = v.migrated(from, to, t, gs);
    let tj = data_key(to, gs[j], t);
    let tl = data_key(to, gs[n - 1], t);
    assert forall|i: int| 0 <= i < d.len() implies v.known(#[trigger] data_key(from, d[i], t)) by {
        assert(d[i] == gs[i]);
    }
    assert(d.no_duplicates()) by {
        assert forall|a: int, b: int| 0 <= a < b < d.len() implies d[a] != d[b] by {
            assert(d[a] == gs[a] && d[b] == gs[b]);
        }
    }
    if j < n - 1 {
        assert(d[j] == gs[j]);
        lemma_migrated_last_write(v, from, to, t, d, j);
        crate::storage::law_data_key_injective(to, gs[j], t, to, gs[n - 1], t);
        assert(tj != tl);
        if m.log.len() > w.log.len() {
            assert(m.log.drop_last() =~= w.log);
        } else {
            assert(m.log =~= w.log);
        }
    } else {
        crate::tx::lemma_migrated_reads(v, from, to, t, d);
        let src = data_key(from, gs[n - 1], t);
        assert forall|i: int| 0 <= i < d.len() implies src != #[trigger] data_key(to, d[i], t) by {
            assert(d[i] == gs[i]);
            crate::storage::law_data_key_injective(from, gs[n - 1], t, to, d[i], t);
        }
        assert(w.pending.contains_key(src) == v.pending.contains_key(src));
        assert(w.read(src) == v.read(src));
        assert(m.log.drop_last() =~= w.log);
    }
}

/// Law: committing a transaction right after it added attribute `h` to entity `t` stores,
/// under the archetype of the grown attribute set, the data of every other attribute of
/// `t` that had data.
pub proof fn law_add_migrated_data(
    store: Map<Seq<u8>, Seq<u8>>,
    v: TxView,
    t: u128,
    h: u64,
    bytes: Seq<u8>,
    g: u64,
)
    requires
        v.attrs.contains_key(t),
        v.attrs[t].finite(),
        !v.attrs[t].contains(h),
        v.add_need(t, h) is None,
        v.attrs[t].contains(g),
        v.read(data_key(archetype_id_of(v.attrs[t]), g, t)) is Some,
    ensures
        entry(
            apply_ops(store, batch_of(v.added(t, h, bytes))),
            data_key(archetype_id_of(v.attrs[t].insert(h)), g, t),
        ) == v.read(data_key(archetype_id_of(v.attrs[t]), g, t)),
{
    lemma_le_bytes_roundtrip();
    let a = v.attrs[t];
    let oa = archetype_id_of(a);
    let na = archetype_id_of(a.insert(h));
    let gs = canonical(a);
    crate::ids::lemma_canonical_exists(a);
    crate::tx::lemma_first_missing_none(v, oa, t, gs);
    assert(gs.no_duplicates()) by {
        assert forall|i: int, k: int| 0 <= i < k < gs.len() implies gs[i] != gs[k] by {
            assert(gs[i] < gs[k]);
        }
    }
    assert(gs.to_set().contains(g));
    let j = choose|j: int| 0 <= j < gs.len() && gs[j] == g;
    lemma_migrated_last_write(v, oa, na, t, gs, j);
    let m = v.migrated(oa, na, t, gs);
    let w = v.added(t, h, bytes);
    let dkg = data_key(na, g, t);
    let dk = data_key(na, h, t);
    let eta = entity_archetype_key_seq(t);
    let ea = entity_attr_key_seq(t, h);
    let ai = attr_index_key_seq(h, t);
    crate::storage::law_data_key_injective(na, g, t, na, h, t);
    assert(dkg != dk && dkg.len() == 32 && eta.len() == 20 && ea.len() == 27 && ai.len() == 27);
    let p1 = m.log.push(BatchOpView::Put(dk, bytes));
    let p2 = p1.push(BatchOpView::Put(eta, le64(na)));
    let p3 = p2.push(BatchOpView::Put(ea, le64(h)));
    let p4 = p3.push(BatchOpView::Put(ai, Seq::<u8>::empty()));
    assert(w.log == p4);
    assert(p4.drop_last() =~= p3);
    assert(p3.drop_last() =~= p2);
    assert(p2.drop_last() =~= p1);
    assert(p1.drop_last() =~= m.log);
    assert(last_write(p1, dkg) == last_write(m.log, dkg));
    assert(last_write(p2, dkg) == last_write(m.log, dkg));
    assert(last_write(p3, dkg) == last_write(m.log, dkg));
    assert(last_write(p4, dkg) == last_write(m.log, dkg));
    lemma_apply_ops(store, w.log, dkg);
}

/// The key an operation touches.
pub open spec fn op_key(op: BatchOpView) -> Seq<u8> {
    match op {
        BatchOpView::Delete(k) => k,
        BatchOpView::Put(k, _) => k,
    }
}

proof fn lemma_push_other(log: Seq<BatchOpView>, op: BatchOpView, k: Seq<u8>)
    requires
        op_key(op) != k,
    ensures
        last_write(log.push(op), k) == last_write(log, k),
{
    assert(log.push(op).drop_last() =~= log);
}

/// The stored attribute and index records of entity `t`, as the batch of `v` would leave
/// them in `store`, are exactly those of the transaction's attribute set of `t`.
pub open spec fn records_match(store: Map<Seq<u8>, Seq<u8>>, v: TxView, t: u128) -> bool {
    forall|g: u64|
        #![trigger entity_attr_key_seq(t, g)]
        #![trigger attr_index_key_seq(g, t)]
        (after_ops(store, v.log, entity_attr_key_seq(t, g)) is Some <==> v.attrs[t].contains(g)) && (
        after_ops(store, v.log, attr_index_key_seq(g, t)) is Some <==> v.attrs[t].contains(g))
}

/// Law: once committed, records that match are what the store holds: `t` has an
/// attribute record and an index record for exactly the attributes of its set.
pub proof fn law_records_committed(store: Map<Seq<u8>, Seq<u8>>, v: TxView, t: u128, g: u64)
    requires
        records_match(store, v, t),
    ensures
        entry(apply_ops(store, batch_of(v)), entity_attr_key_seq(t, g)) is Some <==> v.attrs[t].contains(g),
        entry(apply_ops(store, batch_of(v)), attr_index_key_seq(g, t)) is Some <==> v.attrs[t].contains(g),
{
    lemma_apply_ops(store, v.log, entity_attr_key_seq(t, g));
    lemma_apply_ops(store, v.log, attr_index_key_seq(g, t));
}

/// Law: giving a transaction the stored attribute set of `t` makes its records match,
/// when the store's records of `t` are those of that set and the transaction has not
/// written or deleted any of them.
pub proof fn law_records_supplied(store: Map<Seq<u8>, Seq<u8>>, v: TxView, t: u128, stored: Seq<u64>)
    requires
        forall|g: u64| #[trigger]
            store.contains_key(entity_attr_key_seq(t, g)) <==> stored.contains(g),
        forall|g: u64| #[trigger]
            store.contains_key(attr_index_key_seq(g, t)) <==> stored.contains(g),
        forall|g: u64| #[trigger] last_write(v.log, entity_attr_key_seq(t, g)) is None,
        forall|g: u64| #[trigger] last_write(v.log, attr_index_key_seq(g, t)) is None,
    ensures
        records_match(store, TxView { attrs: v.attrs.insert(t, stored.to_set()), ..v }, t),
{
}

/// Law: adding an attribute to any entity keeps the records of `t` matching.
pub proof fn law_records_add(
    store: Map<Seq<u8>, Seq<u8>>,
    v: TxView,
    t: u128,
    u: u128,
    h: u64,
    bytes: Seq<u8>,
)
    requires
        v.attrs.contains_key(u),
        records_match(store, v, t),
    ensures
        records_match(store, v.added(u, h, bytes), t),
{
    let a = v.attrs[u];
    if !a.contains(h) {
        lemma_le_bytes_roundtrip();
        let n = a.insert(h);
        let na = archetype_id_of(n);
        let m = if a.is_empty() {
            v
        } else {
            v.migrated(archetype_id_of(a), na, u, canonical(a))
        };
        if !a.is_empty() {
            crate::tx::lemma_migrated_frame(v, archetype_id_of(a), na, u, canonical(a));
        }
        let w = v.added(u, h, bytes);
        let dk = data_key(na, h, u);
        let eta = entity_archetype_key_seq(u);
        let ea = entity_attr_key_seq(u, h);
        let ai = attr_index_key_seq(h, u);
        let p1 = m.log.push(BatchOpView::Put(dk, bytes));
        let p2 = p1.push(BatchOpView::Put(eta, le64(na)));
        let p3 = p2.push(BatchOpView::Put(ea, le64(h)));
        let p4 = p3.push(BatchOpView::Put(ai, Seq::<u8>::empty()));
        assert(w.log == p4);
        assert(dk.len() == 32);
        assert forall|g: u64|
            (after_ops(store, w.log, #[trigger] entity_attr_key_seq(t, g)) is Some <==> w.attrs[t].contains(g))
                && (after_ops(store, w.log, attr_index_key_seq(g, t)) is Some <==> w.attrs[t].contains(g)) by {
            let ek = entity_attr_key_seq(t, g);
            let ik = attr_index_key_seq(g, t);
            lemma_record_keys(t, g, u, h);
            lemma_record_keys(u, h, t, g);
            assert(ek.len() == 27 && ik.len() == 27);
            if t == u && g == h {
                assert(p4.drop_last() =~= p3);
                assert(last_write(p3, ek) == Some(Some(le64(h))));
                lemma_push_other(p3, BatchOpView::Put(ai, Seq::<u8>::empty()), ek);
                assert(last_write(p4, ik) == Some(Some(Seq::<u8>::empty())));
            } else {
                assert(ek != ea && ik != ai && ek != ai && ik != ea);
                lemma_push_other(m.log, BatchOpView::Put(dk, bytes), ek);
                lemma_push_other(p1, BatchOpView::Put(eta, le64(na)), ek);
                lemma_push_other(p2, BatchOpView::Put(ea, le64(h)), ek);
                lemma_push_other(p3, BatchOpView::Put(ai, Seq::<u8>::empty()), ek);
                lemma_push_other(m.log, BatchOpView::Put(dk, bytes), ik);
                lemma_push_other(p1, BatchOpView::Put(eta, le64(na)), ik);
                lemma_push_other(p2, BatchOpView::Put(ea, le64(h)), ik);
                lemma_push_other(p3, BatchOpView::Put(ai, Seq::<u8>::empty()), ik);
                assert(last_write(m.log, ek) == last_write(v.log, ek));
                assert(last_write(m.log, ik) == last_write(v.log, ik));
                assert(after_ops(store, v.log, ek) is Some <==> v.attrs[t].contains(g));
                assert(after_ops(store, v.log, ik) is Some <==> v.attrs[t].contains(g));
            }
        }
    }
}

/// Law: removing an attribute from any entity keeps the records of `t` matching.
pub proof fn law_records_remove(store: Map<Seq<u8>, Seq<u8>>, v: TxView, t: u128, u: u128, h: u64)
    requires
        v.attrs.contains_key(u),
        v.attrs[u].finite(),
        records_match(store, v, t),
    ensures
        records_match(store, v.removed(u, h), t),
{
    let a = v.attrs[u];
    if a.contains(h) {
        lemma_le_bytes_roundtrip();
        let r = a.remove(h);
        let oa = archetype_id_of(a);
        let dk = data_key(oa, h, u);
        let ea = entity_attr_key_seq(u, h);
        let ai = attr_index_key_seq(h, u);
        let eta = entity_archetype_key_seq(u);
        let w = v.buf_delete(dk).with_attrs(u, r).push_delete(ea).push_delete(ai);
        let l0 = v.log.push(BatchOpView::Delete(dk));
        let l1 = l0.push(BatchOpView::Delete(ea));
        let l2 = l1.push(BatchOpView::Delete(ai));
        assert(w.log == l2);
        assert(dk.len() == 32);
        let x = v.removed(u, h);
        if !r.is_empty() {
            crate::tx::lemma_migrated_frame(w, oa, archetype_id_of(r), u, canonical(r));
        }
        assert(x.attrs == w.attrs);
        assert forall|g: u64|
            (after_ops(store, x.log, #[trigger] entity_attr_key_seq(t, g)) is Some <==> x.attrs[t].contains(g))
                && (after_ops(store, x.log, attr_index_key_seq(g, t)) is Some <==> x.attrs[t].contains(g)) by {
            let ek = entity_attr_key_seq(t, g);
            let ik = attr_index_key_seq(g, t);
            lemma_record_keys(t, g, u, h);
            lemma_record_keys(u, h, t, g);
            lemma_push_other(v.log, BatchOpView::Delete(dk), ek);
            lemma_push_other(v.log, BatchOpView::Delete(dk), ik);
            if t == u && g == h {
                assert(l1.drop_last() =~= l0);
                assert(l2.drop_last() =~= l1);
                assert(last_write(l1, ek) == Some(None::<Seq<u8>>));
                lemma_push_other(l1, BatchOpView::Delete(ai), ek);
                assert(last_write(l2, ik) == Some(None::<Seq<u8>>));
            } else {
                lemma_push_other(l0, BatchOpView::Delete(ea), ek);
                lemma_push_other(l1, BatchOpView::Delete(ai), ek);
                lemma_push_other(l0, BatchOpView::Delete(ea), ik);
                lemma_push_other(l1, BatchOpView::Delete(ai), ik);
            }
            if r.is_empty() {
                assert(x.log == l2.push(BatchOpView::Delete(eta)));
                lemma_push_other(l2, BatchOpView::Delete(eta), ek);
                lemma_push_other(l2, BatchOpView::Delete(eta), ik);
            } else {
                let m = w.migrated(oa, archetype_id_of(r), u, canonical(r));
                assert(x.log == m.log.push(BatchOpView::Put(eta, le64(archetype_id_of(r)))));
                lemma_push_other(m.log, BatchOpView::Put(eta, le64(archetype_id_of(r))), ek);
                lemma_push_other(m.log, BatchOpView::Put(eta, le64(archetype_id_of(r))), ik);
            }
            assert(after_ops(store, v.log, ek) is Some <==> v.attrs[t].contains(g));
            assert(after_ops(store, v.log, ik) is Some <==> v.attrs[t].contains(g));
        }
    }
}

/// Law: setting an attribute of any entity keeps the records of `t` matching.
pub proof fn law_records_set(
    store: Map<Seq<u8>, Seq<u8>>,
    v: TxView,
    t: u128,
    u: u128,
    h: u64,
    bytes: Seq<u8>,
)
    requires
        v.attrs.contains_key(u),
        records_match(store, v, t),
    ensures
        records_match(store, v.set_value(u, h, bytes), t),
{
    if v.attrs[u].contains(h) {
        lemma_le_bytes_roundtrip();
        let dk = data_key(archetype_id_of(v.attrs[u]), h, u);
        assert(dk.len() == 32);
        let x = v.set_value(u, h, bytes);
        assert forall|g: u64|
            (after_ops(store, x.log, #[trigger] entity_attr_key_seq(t, g)) is Some <==> x.attrs[t].contains(g))
                && (after_ops(store, x.log, attr_index_key_seq(g, t)) is Some <==> x.attrs[t].contains(g)) by {
            lemma_record_keys(t, g, u, h);
            lemma_push_other(v.log, BatchOpView::Put(dk, bytes), entity_attr_key_seq(t, g));
            lemma_push_other(v.log, BatchOpView::Put(dk, bytes), attr_index_key_seq(g, t));
            assert(after_ops(store, v.log, entity_attr_key_seq(t, g)) is Some <==> v.attrs[t].contains(g));
            assert(after_ops(store, v.log, attr_index_key_seq(g, t)) is Some <==> v.attrs[t].contains(g));
        }
    } else {
        law_records_add(store, v, t, u, h, bytes);
    }
}

/// Law: relating and unrelating entities keeps the records of `t` matching.
pub proof fn law_records_edges(
    store: Map<Seq<u8>, Seq<u8>>,
    v: TxView,
    t: u128,
    e: u64,
    from: u128,
    to: u128,
    bytes: Seq<u8>,
)
    requires
        records_match(store, v, t),
    ensures
        records_match(store, v.related(e, from, to, bytes), t),
        records_match(store, v.unrelated(e, from, to), t),
{
    lemma_le_bytes_roundtrip();
    let f = edge_key_seq(e, from, to);
    let r = reverse_edge_key_seq(e, to, from);
    assert(f.len() == 42 && r.len() == 43);
    let x = v.related(e, from, to, bytes);
    let y = v.unrelated(e, from, to);
    assert forall|g: u64|
        (after_ops(store, x.log, #[trigger] entity_attr_key_seq(t, g)) is Some <==> x.attrs[t].contains(g))
            && (after_ops(store, x.log, attr_index_key_seq(g, t)) is Some <==> x.attrs[t].contains(g)) by {
        lemma_record_keys(t, g, t, g);
        let ek = entity_attr_key_seq(t, g);
        let ik = attr_index_key_seq(g, t);
        let x1 = v.log.push(BatchOpView::Put(f, bytes));
        assert(x.log == x1.push(BatchOpView::Put(r, bytes)));
        lemma_push_other(v.log, BatchOpView::Put(f, bytes), ek);
        lemma_push_other(x1, BatchOpView::Put(r, bytes), ek);
        lemma_push_other(v.log, BatchOpView::Put(f, bytes), ik);
        lemma_push_other(x1, BatchOpView::Put(r, bytes), ik);
        assert(after_ops(store, v.log, ek) is Some <==> v.attrs[t].contains(g));
        assert(after_ops(store, v.log, ik) is Some <==> v.attrs[t].contains(g));
    }
    assert forall|g: u64|
        (after_ops(store, y.log, #[trigger] entity_attr_key_seq(t, g)) is Some <==> y.attrs[t].contains(g))
            && (after_ops(store, y.log, attr_index_key_seq(g, t)) is Some <==> y.attrs[t].contains(g)) by {
        lemma_record_keys(t, g, t, g);
        let ek = entity_attr_key_seq(t, g);
        let ik = attr_index_key_seq(g, t);
        let y1 = v.log.push(BatchOpView::Delete(f));
        assert(y.log == y1.push(BatchOpView::Delete(r)));
        lemma_push_other(v.log, BatchOpView::Delete(f), ek);
        lemma_push_other(y1, BatchOpView::Delete(r), ek);
        lemma_push_other(v.log, BatchOpView::Delete(f), ik);
        lemma_push_other(y1, BatchOpView::Delete(r), ik);
        assert(after_ops(store, v.log, ek) is Some <==> v.attrs[t].contains(g));
        assert(after_ops(store, v.log, ik) is Some <==> v.attrs[t].contains(g));
    }
}

/// Law: deleting the edges of scanned forward keys keeps the records of `t` matching, when
/// every scanned key starts with the forward-edge tag `e:` (as every key under an
/// outgoing-edge prefix does).
pub proof fn law_records_unrelate_all(
    store: Map<Seq<u8>, Seq<u8>>,
    v: TxView,
    t: u128,
    e: u64,
    from: u128,
    keys: Seq<Seq<u8>>,
)
    requires
        records_match(store, v, t),
        forall|i: int|
            0 <= i < keys.len() ==> (#[trigger] keys[i]).len() >= 2 && keys[i][0] == 101u8 && keys[i][1]
                == 58u8,
    ensures
        records_match(store, v.unrelated_keys(e, from, keys), t),
    decreases keys.len(),
{
    if keys.len() > 0 {
        let d = keys.drop_last();
        assert forall|i: int| 0 <= i < d.len() implies (#[trigger] d[i]).len() >= 2 && d[i][0] == 101u8
            && d[i][1] == 58u8 by {
            assert(d[i] == keys[i]);
        }
        law_records_unrelate_all(store, v, t, e, from, d);
        let prev = v.unrelated_keys(e, from, d);
        let last = keys.last();
        assert(last == keys[keys.len() - 1]);
        let x = v.unrelated_keys(e, from, keys);
        lemma_le_bytes_roundtrip();
        assert forall|g: u64|
            (after_ops(store, x.log, #[trigger] entity_attr_key_seq(t, g)) is Some <==> x.attrs[t].contains(g))
                && (after_ops(store, x.log, attr_index_key_seq(g, t)) is Some <==> x.attrs[t].contains(g)) by {
            lemma_record_keys(t, g, t, g);
            let ek = entity_attr_key_seq(t, g);
            let ik = attr_index_key_seq(g, t);
            assert(ek != last && ik != last);
            let v2 = match id_at(last, 26) {
                Some(tgt) => prev.buf_delete(reverse_edge_key_seq(e, tgt, from)),
                None => prev,
            };
            match id_at(last, 26) {
                Some(tgt) => {
                    let rk = reverse_edge_key_seq(e, tgt, from);
                    assert(rk.len() == 43);
                    lemma_push_other(prev.log, BatchOpView::Delete(rk), ek);
                    lemma_push_other(prev.log, BatchOpView::Delete(rk), ik);
                },
                None => {},
            }
            assert(x.log == v2.log.push(BatchOpView::Delete(last)));
            lemma_push_other(v2.log, BatchOpView::Delete(last), ek);
            lemma_push_other(v2.log, BatchOpView::Delete(last), ik);
            assert(after_ops(store, prev.log, ek) is Some <==> prev.attrs[t].contains(g));
            assert(after_ops(store, prev.log, ik) is Some <==> prev.attrs[t].contains(g));
        }
    }
}

proof fn lemma_destroyed_each_other(v: TxView, arch: u64, u: u128, gs: Seq<u64>, t: u128)
    requires
        t != u,
    ensures
        v.destroyed_each(arch, u, gs).attrs[t] == v.attrs[t],
    decreases gs.len(),
{
    if gs.len() > 0 {
        lemma_destroyed_each_other(v, arch, u, gs.drop_last(), t);
    }
}

/// Law: destroying any entity keeps the records of `t` matching.
pub proof fn law_records_destroy(store: Map<Seq<u8>, Seq<u8>>, v: TxView, t: u128, u: u128)
    requires
        v.attrs.contains_key(u),
        v.attrs[u].finite(),
        records_match(store, v, t),
    ensures
        records_match(store, v.destroyed(u), t),
{
    let a = v.attrs[u];
    if !a.is_empty() {
        lemma_le_bytes_roundtrip();
        let arch = archetype_id_of(a);
        let gs = canonical(a);
        crate::ids::lemma_canonical_exists(a);
        crate::tx::lemma_destroyed_each_attrs(v, arch, u, gs);
        let de = v.destroyed_each(arch, u, gs);
        let eta = entity_archetype_key_seq(u);
        let x = v.destroyed(u);
        assert(x.log == de.log.push(BatchOpView::Delete(eta)));
        assert(x.attrs == de.attrs);
        if t == u {
            assert(de.attrs[u] =~= Set::<u64>::empty());
        } else {
            lemma_destroyed_each_other(v, arch, u, gs, t);
        }
        assert forall|g: u64|
            (after_ops(store, x.log, #[trigger] entity_attr_key_seq(t, g)) is Some <==> x.attrs[t].contains(g))
                && (after_ops(store, x.log, attr_index_key_seq(g, t)) is Some <==> x.attrs[t].contains(g)) by {
            let ek = entity_attr_key_seq(t, g);
            let ik = attr_index_key_seq(g, t);
            lemma_record_keys(t, g, u, g);
            lemma_record_keys(u, g, t, g);
            assert(eta.len() == 20);
            lemma_push_other(de.log, BatchOpView::Delete(eta), ek);
            lemma_push_other(de.log, BatchOpView::Delete(eta), ik);
            lemma_destroyed_each_log(v, arch, u, gs, ek);
            lemma_destroyed_each_log(v, arch, u, gs, ik);
            assert(after_ops(store, v.log, ek) is Some <==> v.attrs[t].contains(g));
            assert(after_ops(store, v.log, ik) is Some <==> v.attrs[t].contains(g));
            if t == u && a.contains(g) {
                assert(gs.to_set().contains(g));
                let j = choose|j: int| 0 <= j < gs.len() && gs[j] == g;
                assert(attr_record(arch, u, gs[j], ek));
                assert(attr_record(arch, u, gs[j], ik));
            } else {
                assert forall|j: int| 0 <= j < gs.len() implies !#[trigger] attr_record(arch, u, gs[j], ek) by {
                    lemma_record_keys(t, g, u, gs[j]);
                    lemma_record_keys(u, gs[j], t, g);
                    assert(data_key(arch, gs[j], u).len() == 32);
                    if t == u {
                        assert(gs.to_set().contains(gs[j]));
                    }
                }
                assert forall|j: int| 0 <= j < gs.len() implies !#[trigger] attr_record(arch, u, gs[j], ik) by {
                    lemma_record_keys(t, g, u, gs[j]);
                    lemma_record_keys(u, gs[j], t, g);
                    assert(data_key(arch, gs[j], u).len() == 32);
                    if t == u {
                        assert(gs.to_set().contains(gs[j]));
                    }
                }
            }
        }
    }
}

/// A log ending in a delete of `k` leaves `k` deleted, whatever deletes follow it.
proof fn lemma_deleted_stays(log: Seq<BatchOpView>, op: BatchOpView, k: Seq<u8>)
    requires
        last_write(log, k) == Some(None::<Seq<u8>>),
        op is Delete,
    ensures
        last_write(log.push(op), k) == Some(None::<Seq<u8>>),
{
    assert(log.push(op).drop_last() =~= log);
}

proof fn lemma_unrelated_keys_reverse(v: TxView, e: u64, from: u128, keys: Seq<Seq<u8>>, j: int, tgt: u128)
    requires
        0 <= j < keys.len(),
        id_at(keys[j], 26) == Some(tgt),
    ensures
        last_write(v.unrelated_keys(e, from, keys).log, reverse_edge_key_seq(e, tgt, from)) == Some(
            None::<Seq<u8>>,
        ),
    decreases keys.len(),
{
    let rk = reverse_edge_key_seq(e, tgt, from);
    let d = keys.drop_last();
    let prev = v.unrelated_keys(e, from, d);
    let last = keys.last();
    let w = v.unrelated_keys(e, from, keys);
    let v2 = match id_at(last, 26) {
        Some(t2) => prev.buf_delete(reverse_edge_key_seq(e, t2, from)),
        None => prev,
    };
    assert(w.log == v2.log.push(BatchOpView::Delete(last)));
    if j < keys.len() - 1 {
        assert(d[j] == keys[j]);
        lemma_unrelated_keys_reverse(v, e, from, d, j, tgt);
        match id_at(last, 26) {
            Some(t2) => {
                lemma_deleted_stays(prev.log, BatchOpView::Delete(reverse_edge_key_seq(e, t2, from)), rk);
            },
            None => {},
        }
        lemma_deleted_stays(v2.log, BatchOpView::Delete(last), rk);
    } else {
        assert(v2.log == prev.log.push(BatchOpView::Delete(rk)));
        assert(v2.log.drop_last() =~= prev.log);
        assert(last_write(v2.log, rk) == Some(None::<Seq<u8>>));
        lemma_deleted_stays(v2.log, BatchOpView::Delete(last), rk);
    }
}

/// Law: after deleting the edges of scanned forward keys and committing, the reverse
/// record of every one of them is gone too: for each scanned key with target `tgt`, the
/// record `er: ‖ edge ‖ tgt ‖ from` is not stored.
pub proof fn law_unrelate_all_reverse(
    store: Map<Seq<u8>, Seq<u8>>,
    v: TxView,
    e: u64,
    from: u128,
    keys: Seq<Seq<u8>>,
    j: int,
    tgt: u128,
)
    requires
        0 <= j < keys.len(),
        id_at(keys[j], 26) == Some(tgt),
    ensures
        entry(apply_ops(store, batch_of(v.unrelated_keys(e, from, keys))), reverse_edge_key_seq(e, tgt, from))
            is None,
{
    lemma_unrelated_keys_reverse(v, e, from, keys, j, tgt);
    lemma_apply_ops(store, v.unrelated_keys(e, from, keys).log, reverse_edge_key_seq(e, tgt, from));
}

/// Law: setting an attribute the entity already has writes its data under the entity's
/// archetype and nothing else: its attribute set stays, and every other key (the
/// archetype, attribute and index records among them) keeps what the transaction's log
/// left there.
pub proof fn law_set_in_place(v: TxView, t: u128, h: u64, bytes: Seq<u8>, k: Seq<u8>)
    requires
        v.attrs.contains_key(t),
        v.attrs[t].contains(h),
    ensures
        v.set_value(t, h, bytes).attrs == v.attrs,
        last_write(v.set_value(t, h, bytes).log, data_key(archetype_id_of(v.attrs[t]), h, t)) == Some(
            Some(bytes),
        ),
        k != data_key(archetype_id_of(v.attrs[t]), h, t) ==> last_write(v.set_value(t, h, bytes).log, k)
            == last_write(v.log, k),
{
    let dk = data_key(archetype_id_of(v.attrs[t]), h, t);
    let x = v.set_value(t, h, bytes);
    assert(x.log == v.log.push(BatchOpView::Put(dk, bytes)));
    assert(x.log.drop_last() =~= v.log);
    if k != dk {
        lemma_push_other(v.log, BatchOpView::Put(dk, bytes), k);
    }
}

} // verus!

//! What a query selects: the entities, or cached component data, of one output attribute,
//! narrowed by attributes the entity must have and attributes it must not have.
use crate::archetype::{archetype_matches, present, Registry, RegistryView};
use crate::storage::{archetype_value, data_key, decode_archetype_value, KeyEncoder};
use std::collections::HashSet;
use vstd::bytes::{spec_u64_from_le_bytes, u64_from_le_bytes};
use vstd::prelude::*;
use vstd::slice::slice_subrange;

verus! {

broadcast use vstd::std_specs::hash::group_hash_axioms, vstd::seq_lib::group_seq_properties;

/// The data of the output attribute in every archetype of `ids` that matches, in order.
pub open spec fn cached_data(
    r: RegistryView,
    ids: Seq<u64>,
    output_hash: u64,
    with_hashes: Seq<u64>,
    without_hashes: Seq<u64>,
) -> Seq<Seq<u8>>
    decreases ids.len(),
{
    if ids.len() == 0 {
        Seq::empty()
    } else {
        let rest = cached_data(r, ids.drop_last(), output_hash, with_hashes, without_hashes);
        let a = r.archetypes[ids.last()];
        if archetype_matches(a, output_hash, with_hashes, without_hashes) {
            rest + present(a.columns[output_hash])
        } else {
            rest
        }
    }
}

/// Whether an entity is selected: it has the output attribute, is in every `with` list,
/// and in no `without` list.
pub open spec fn selected(
    x: u128,
    output_ids: Seq<u128>,
    with_ids: Seq<Seq<u128>>,
    without_ids: Seq<Seq<u128>>,
) -> bool {
    &&& output_ids.contains(x)
    &&& forall|i: int| 0 <= i < with_ids.len() ==> (#[trigger] with_ids[i]).contains(x)
    &&& forall|i: int| 0 <= i < without_ids.len() ==> !(#[trigger] without_ids[i]).contains(x)
}

pub open spec fn ascending(s: Seq<u128>) -> bool {
    forall|i: int, j: int| 0 <= i < j < s.len() ==> s[i] < s[j]
}

pub open spec fn ids_view(v: Seq<Vec<u128>>) -> Seq<Seq<u128>> {
    v.map_values(|e: Vec<u128>| e@)
}

/// The attribute hashes a query reads and filters by.
pub struct QuerySpec {
    pub output_attr_hash: u64,
    pub with_components: Vec<u64>,
    pub without_components: Vec<u64>,
}

impl QuerySpec {
    /// A query of every entity that has the output attribute.
    pub fn new(output_attr_hash: u64) -> (q: Self)
        ensures
            q.output_attr_hash == output_attr_hash,
            q.with_components@ == Seq::<u64>::empty(),
            q.without_components@ == Seq::<u64>::empty(),
    {
        QuerySpec { output_attr_hash, with_components: Vec::new(), without_components: Vec::new() }
    }

    /// Also requires attribute `hash`.
    pub fn with(self, hash: u64) -> (q: Self)
        ensures
            q.output_attr_hash == self.output_attr_hash,
            q.with_components@ == self.with_components@.push(hash),
            q.without_components@ == self.without_components@,
    {
        let mut q = self;
        q.with_components.push(hash);
        q
    }

    /// Also excludes attribute `hash`.
    pub fn without(self, hash: u64) -> (q: Self)
        ensures
            q.output_attr_hash == self.output_attr_hash,
            q.with_components@ == self.with_components@,
            q.without_components@ == self.without_components@.push(hash),
    {
        let mut q = self;
        q.without_components.push(hash);
        q
    }

    /// The cached data of the output attribute in every matching archetype, archetype by
    /// archetype in creation order; `None` when the cache holds no archetype at all (a cold
    /// cache, to be bypassed for the stored data).
    pub fn cached_results<'a>(&self, registry: &'a Registry) -> (r: Option<Vec<&'a Vec<u8>>>)
        requires
            registry.wf(),
        ensures
            registry@.archetypes.is_empty() <==> r is None,
            r matches Some(v) ==> v@.map_values(|d: &Vec<u8>| d@) == cached_data(
                registry@,
                registry@.order,
                self.output_attr_hash,
                self.with_components@,
                self.without_components@,
            ),
    {
        if registry.archetype_count() == 0 {
            proof {
                vstd::set_lib::lemma_set_empty_equivalency_len(registry@.archetypes.dom());
                assert(registry@.archetypes =~= Map::empty());
            }
            return None;
        }
        let all = registry.all_archetypes();
        let mut out: Vec<&'a Vec<u8>> = Vec::new();
        let mut i: usize = 0;
        while i < all.len()
            invariant
                registry.wf(),
                i <= all@.len(),
                all@.len() == registry@.order.len(),
                forall|j: int|
                    0 <= j < all@.len() ==> #[trigger] all@[j].0 == registry@.order[j] && all@[j].1@
                        == registry@.archetypes[registry@.order[j]],
                out@.map_values(|d: &Vec<u8>| d@) == cached_data(
                    registry@,
                    registry@.order.take(i as int),
                    self.output_attr_hash,
                    self.with_components@,
                    self.without_components@,
                ),
            decreases all@.len() - i,
        {
            let (id, arch) = all[i];
            let ghost pre = out@;
            assert(registry@.order.take(i + 1).drop_last() =~= registry@.order.take(i as int));
            assert(registry@.order.take(i + 1).last() == id);
            if crate::archetype::matches_all(
                arch,
                self.output_attr_hash,
                self.with_components.as_slice(),
                self.without_components.as_slice(),
            ) {
                let data = arch.iter_component(self.output_attr_hash);
                let mut j: usize = 0;
                while j < data.len()
                    invariant
                        j <= data@.len(),
                        out@.map_values(|d: &Vec<u8>| d@) == pre.map_values(|d: &Vec<u8>| d@) + data@.take(
                            j as int,
                        ).map_values(|d: &Vec<u8>| d@),
                    decreases data@.len() - j,
                {
                    let ghost before = out@;
                    out.push(data[j]);
                    assert(data@.take(j + 1).map_values(|d: &Vec<u8>| d@) =~= data@.take(
                        j as int,
                    ).map_values(|d: &Vec<u8>| d@).push(data@[j as int]@));
                    assert(out@.map_values(|d: &Vec<u8>| d@) =~= before.map_values(|d: &Vec<u8>| d@).push(
                        data@[j as int]@,
                    ));
                    j = j + 1;
                }
                assert(data@.take(data@.len() as int) =~= data@);
            }
            i = i + 1;
        }
        assert(registry@.order.take(registry@.order.len() as int) =~= registry@.order);
        Some(out)
    }

    /// The entities a stored-data query reads, in ascending order without repeats: those of
    /// `output_ids` (the entities indexed under the output attribute) that occur in every
    /// list of `with_ids` and in no list of `without_ids`.
    pub fn select_candidates(
        &self,
        output_ids: &Vec<u128>,
        with_ids: &Vec<Vec<u128>>,
        without_ids: &Vec<Vec<u128>>,
    ) -> (r: Vec<u128>)
        ensures
            ascending(r@),
            forall|x: u128|
                r@.contains(x) <==> selected(x, output_ids@, ids_view(with_ids@), ids_view(without_ids@)),
    {
        let mut r: Vec<u128> = Vec::new();
        let mut i: usize = 0;
        while i < output_ids.len()
            invariant
                i <= output_ids@.len(),
                ascending(r@),
                forall|x: u128|
                    r@.contains(x) <==> (selected(
                        x,
                        output_ids@.take(i as int),
                        ids_view(with_ids@),
                        ids_view(without_ids@),
                    )),
            decreases output_ids@.len() - i,
        {
            let x = output_ids[i];
            let keep = in_all(x, with_ids) && !in_any(x, without_ids);
            if keep {
                insert_ascending(&mut r, x);
            }
            proof {
                let a = output_ids@.take(i + 1);
                let b = output_ids@.take(i as int);
                assert forall|y: u128| a.contains(y) <==> (b.contains(y) || y == x) by {
                    if a.contains(y) {
                        let k = choose|k: int| 0 <= k < a.len() && a[k] == y;
                        if k < i {
                            assert(b[k] == y);
                        }
                    }
                    if b.contains(y) {
                        let k = choose|k: int| 0 <= k < b.len() && b[k] == y;
                        assert(a[k] == y);
                    }
                    if y == x {
                        assert(a[i as int] == y);
                    }
                }
            }
            i = i + 1;
        }
        assert(output_ids@.take(output_ids@.len() as int) =~= output_ids@);
        r
    }
}

pub(crate) fn contains_id(v: &Vec<u128>, x: u128) -> (r: bool)
    ensures
        r == v@.contains(x),
{
    let mut i: usize = 0;
    while i < v.len()
        invariant
            i <= v@.len(),
            forall|k: int| 0 <= k < i ==> v@[k] != x,
        decreases v@.len() - i,
    {
        if v[i] == x {
            return true;
        }
        i = i + 1;
    }
    false
}

fn in_all(x: u128, lists: &Vec<Vec<u128>>) -> (r: bool)
    ensures
        r == forall|i: int| 0 <= i < lists@.len() ==> (#[trigger] ids_view(lists@)[i]).contains(x),
{
    let mut i: usize = 0;
    while i < lists.len()
        invariant
            i <= lists@.len(),
            forall|k: int| 0 <= k < i ==> (#[trigger] ids_view(lists@)[k]).contains(x),
        decreases lists@.len() - i,
    {
        if !contains_id(&lists[i], x) {
            assert(!ids_view(lists@)[i as int].contains(x));
            return false;
        }
        i = i + 1;
    }
    true
}

fn in_any(x: u128, lists: &Vec<Vec<u128>>) -> (r: bool)
    ensures
        r == exists|i: int| 0 <= i < lists@.len() && (#[trigger] ids_view(lists@)[i]).contains(x),
{
    let mut i: usize = 0;
    while i < lists.len()
        invariant
            i <= lists@.len(),
            forall|k: int| 0 <= k < i ==> !(#[trigger] ids_view(lists@)[k]).contains(x),
        decreases lists@.len() - i,
    {
        if contains_id(&lists[i], x) {
            assert(ids_view(lists@)[i as int].contains(x));
            return true;
        }
        i = i + 1;
    }
    false
}

/// Adds `x` to the ascending `v`, unless it is there already.
#[verifier::rlimit(40)]
fn insert_ascending(v: &mut Vec<u128>, x: u128)
    requires
        ascending(old(v)@),
    ensures
        ascending(final(v)@),
        forall|y: u128| final(v)@.contains(y) <==> (old(v)@.contains(y) || y == x),
{
    let mut p: usize = 0;
    while p < v.len() && v[p] < x
        invariant
            p <= v@.len(),
            forall|k: int| 0 <= k < p ==> v@[k] < x,
        decreases v@.len() - p,
    {
        p = p + 1;
    }
    if p < v.len() && v[p] == x {
        return;
    }
    let ghost pre = v@;
    v.insert(p, x);
    proof {
        assert(final(v)@ =~= pre.insert(p as int, x));
        assert forall|i: int, j: int| 0 <= i < j < final(v)@.len() implies final(v)@[i] < final(v)@[j] by {
            if j < p {
            } else if j == p {
            } else if i < p {
                assert(final(v)@[j] == pre[j - 1]);
                assert(pre[p as int] > x);
                if j - 1 > p {
                    assert(pre[p as int] < pre[j - 1]);
                }
            } else if i == p {
                assert(final(v)@[j] == pre[j - 1]);
                if j - 1 > p {
                    assert(pre[p as int] < pre[j - 1]);
                }
            } else {
                assert(final(v)@[i] == pre[i - 1] && final(v)@[j] == pre[j - 1]);
            }
        }
        assert forall|y: u128| final(v)@.contains(y) <==> (pre.contains(y) || y == x) by {
            if final(v)@.contains(y) {
                let k = choose|k: int| 0 <= k < final(v)@.len() && final(v)@[k] == y;
                if k < p {
                    assert(pre[k] == y);
                } else if k > p {
                    assert(pre[k - 1] == y);
                }
            }
            if pre.contains(y) {
                let k = choose|k: int| 0 <= k < pre.len() && pre[k] == y;
                if k < p {
                    assert(final(v)@[k] == y);
                } else {
                    assert(final(v)@[k + 1] == y);
                }
            }
            if y == x {
                assert(final(v)@[p as int] == y);
            }
        }
    }
}

/// Whether the candidate set is large enough to be fetched in batches rather than one by one.
pub fn use_batched_fetch(candidates: usize) -> (r: bool)
    ensures
        r == (candidates >= 500),
{
    candidates >= 500
}

/// The data key to read for one candidate, given its stored archetype record: `None`
/// when it has none.
pub fn point_lookup_key(output_hash: u64, thing: u128, archetype_record: Option<&Vec<u8>>) -> (r:
    Option<Vec<u8>>)
    ensures
        match archetype_record {
            Some(v) => (r matches Some(k) && k@ == data_key(archetype_value(v@), output_hash, thing)),
            None => r is None,
        },
{
    match archetype_record {
        Some(v) => Some(KeyEncoder::encode(decode_archetype_value(v.as_slice()), output_hash, thing)),
        None => None,
    }
}

/// The archetype id held in the first eight bytes of a record.
pub open spec fn record_archetype(v: Seq<u8>) -> u64 {
    spec_u64_from_le_bytes(v.subrange(0, 8))
}

/// The data keys to read for a batch of candidates, given their stored archetype records
/// (paired by position): one key per candidate whose record holds at least eight bytes, in
/// candidate order.
pub open spec fn batch_keys(
    output_hash: u64,
    ids: Seq<u128>,
    records: Seq<Option<Seq<u8>>>,
) -> Seq<Seq<u8>>
    decreases ids.len(),
{
    if ids.len() == 0 || records.len() == 0 {
        Seq::empty()
    } else {
        let n = if ids.len() < records.len() {
            ids.len()
        } else {
            records.len()
        };
        let rest = batch_keys(output_hash, ids.take(n - 1), records.take(n - 1));
        match records[n - 1] {
            Some(v) => if v.len() >= 8 {
                rest.push(data_key(record_archetype(v), output_hash, ids[n - 1]))
            } else {
                rest
            },
            None => rest,
        }
    }
}

pub open spec fn records_view(v: Seq<Option<Vec<u8>>>) -> Seq<Option<Seq<u8>>> {
    v.map_values(|o: Option<Vec<u8>>| crate::bytemap::opt_bytes(o))
}

/// The data keys to read for a batch of candidates, given their stored archetype records.
pub fn batched_data_keys(output_hash: u64, ids: &Vec<u128>, records: &Vec<Option<Vec<u8>>>) -> (r:
    Vec<Vec<u8>>)
    ensures
        r@.map_values(|k: Vec<u8>| k@) == batch_keys(output_hash, ids@, records_view(records@)),
{
    let n = if ids.len() < records.len() {
        ids.len()
    } else {
        records.len()
    };
    let mut out: Vec<Vec<u8>> = Vec::new();
    let mut i: usize = 0;
    while i < n
        invariant
            n <= ids@.len(),
            n <= records@.len(),
            n == ids@.len() || n == records@.len(),
            i <= n,
            out@.map_values(|k: Vec<u8>| k@) == batch_keys(
                output_hash,
                ids@.take(i as int),
                records_view(records@).take(i as int),
            ),
        decreases n - i,
    {
        let ghost pre = out@;
        proof {
            let a = ids@.take(i + 1);
            let b = records_view(records@).take(i + 1);
            assert(a.take(i as int) =~= ids@.take(i as int));
            assert(b.take(i as int) =~= records_view(records@).take(i as int));
            assert(b[i as int] == crate::bytemap::opt_bytes(records@[i as int]));
        }
        match &records[i] {
            Some(bytes) => {
                if bytes.len() >= 8 {
                    let arch = u64_from_le_bytes(slice_subrange(bytes.as_slice(), 0, 8));
                    let k = KeyEncoder::encode(arch, output_hash, ids[i]);
                    out.push(k);
                    assert(out@.map_values(|k: Vec<u8>| k@) =~= pre.map_values(|k: Vec<u8>| k@).push(
                        data_key(arch, output_hash, ids@[i as int]),
                    ));
                }
            },
            None => {},
        }
        i = i + 1;
    }
    proof {
        assert(ids@.take(n as int) =~= ids@ || records_view(records@).take(n as int) =~= records_view(records@));
        lemma_batch_keys_prefix(output_hash, ids@, records_view(records@), n as int);
    }
    out
}

/// Only the first `n` pairs count when `n` is the shorter length.
proof fn lemma_batch_keys_prefix(output_hash: u64, ids: Seq<u128>, records: Seq<Option<Seq<u8>>>, n: int)
    requires
        n == (if ids.len() < records.len() {
            ids.len() as int
        } else {
            records.len() as int
        }),
    ensures
        batch_keys(output_hash, ids, records) == batch_keys(output_hash, ids.take(n), records.take(n)),
{
    if n > 0 {
        assert(ids.take(n).take(n - 1) =~= ids.take(n - 1));
        assert(records.take(n).take(n - 1) =~= records.take(n - 1));
    } else {
        assert(ids.take(n) =~= Seq::<u128>::empty() || records.take(n) =~= Seq::<Option<Seq<u8>>>::empty());
    }
}

/// Law: on archetype records of at least eight bytes, the batched fetch reads the keys
/// that point lookups read: one per candidate, in candidate order.
pub proof fn law_batch_matches_point_lookups(
    output_hash: u64,
    ids: Seq<u128>,
    records: Seq<Option<Seq<u8>>>,
)
    requires
        ids.len() == records.len(),
        forall|i: int| 0 <= i < records.len() ==> (#[trigger] records[i] matches Some(v) && v.len() >= 8),
    ensures
        batch_keys(output_hash, ids, records) == Seq::new(
            ids.len(),
            |i: int| data_key(archetype_value(records[i]->0), output_hash, ids[i]),
        ),
    decreases ids.len(),
{
    let n = ids.len() as int;
    if n > 0 {
        let ids2 = ids.take(n - 1);
        let recs2 = records.take(n - 1);
        assert forall|i: int| 0 <= i < recs2.len() implies (#[trigger] recs2[i] matches Some(v)
            && v.len() >= 8) by {
            assert(recs2[i] == records[i]);
        }
        law_batch_matches_point_lookups(output_hash, ids2, recs2);
        assert(records[n - 1] matches Some(v) && v.len() >= 8);
        assert(batch_keys(output_hash, ids, records) =~= Seq::new(
            ids.len(),
            |i: int| data_key(archetype_value(records[i]->0), output_hash, ids[i]),
        ));
    } else {
        assert(batch_keys(output_hash, ids, records) =~= Seq::new(
            ids.len(),
            |i: int| data_key(archetype_value(records[i]->0), output_hash, ids[i]),
        ));
    }
}

/// The data of attribute `h` in each archetype of `ids`, archetype after archetype.
pub open spec fn column_data(r: RegistryView, ids: Seq<u64>, h: u64) -> Seq<Seq<u8>>
    decreases ids.len(),
{
    if ids.len() == 0 {
        Seq::empty()
    } else {
        column_data(r, ids.drop_last(), h) + present(r.archetypes[ids.last()].columns[h])
    }
}

/// Law: the cached data of a query is the output attribute's data of exactly the
/// archetypes of `ids` that have a column for the output attribute and for every `with`
/// attribute, and none for any `without` attribute, in the order of `ids`.
pub proof fn law_cached_selection(
    r: RegistryView,
    ids: Seq<u64>,
    output_hash: u64,
    with_hashes: Seq<u64>,
    without_hashes: Seq<u64>,
)
    ensures
        cached_data(r, ids, output_hash, with_hashes, without_hashes) == column_data(
            r,
            ids.filter(
                |id: u64|
                    r.archetypes[id].columns.contains_key(output_hash) && (forall|i: int|
                        0 <= i < with_hashes.len() ==> r.archetypes[id].columns.contains_key(
                            #[trigger] with_hashes[i],
                        )) && (forall|i: int|
                        0 <= i < without_hashes.len() ==> !r.archetypes[id].columns.contains_key(
                            #[trigger] without_hashes[i],
                        )),
            ),
            output_hash,
        ),
    decreases ids.len(),
{
    let p = |id: u64|
        r.archetypes[id].columns.contains_key(output_hash) && (forall|i: int|
            0 <= i < with_hashes.len() ==> r.archetypes[id].columns.contains_key(
                #[trigger] with_hashes[i],
            )) && (forall|i: int|
            0 <= i < without_hashes.len() ==> !r.archetypes[id].columns.contains_key(
                #[trigger] without_hashes[i],
            ));
    reveal(Seq::filter);
    if ids.len() > 0 {
        law_cached_selection(r, ids.drop_last(), output_hash, with_hashes, without_hashes);
        let f = ids.drop_last().filter(p);
        let last = ids.last();
        assert(p(last) == archetype_matches(r.archetypes[last], output_hash, with_hashes, without_hashes));
        if p(last) {
            assert(ids.filter(p) == f.push(last));
            assert(f.push(last).drop_last() =~= f);
        } else {
            assert(ids.filter(p) == f);
        }
    }
}

} // verus!

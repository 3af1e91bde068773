//! Attribute sets held as strictly increasing vectors, and the archetype id that
//! std's `DefaultHasher` gives to an attribute set.
use crate::storage::le64;
use std::collections::hash_map::DefaultHasher;
use std::collections::HashSet;
use std::hash::Hasher;
use vstd::bytes::u64_to_le_bytes;
use vstd::prelude::*;
use vstd::std_specs::hash::DefaultHasherAdditionalSpecFns;

verus! {

broadcast use vstd::seq_lib::group_seq_properties, vstd::std_specs::hash::group_hash_axioms;

pub open spec fn sorted(s: Seq<u64>) -> bool {
    forall|i: int, j: int| 0 <= i < j < s.len() ==> s[i] <= s[j]
}

pub open spec fn strictly_sorted(s: Seq<u64>) -> bool {
    forall|i: int, j: int| 0 <= i < j < s.len() ==> s[i] < s[j]
}

/// `x` placed before the first element of the sorted `q` that is not below it.
pub open spec fn insert_sorted(q: Seq<u64>, x: u64) -> Seq<u64>
    decreases q.len(),
{
    if q.len() == 0 {
        seq![x]
    } else if x <= q[0] {
        seq![x] + q
    } else {
        seq![q[0]] + insert_sorted(q.drop_first(), x)
    }
}

/// Insertion sort: the elements of `s` in ascending order, duplicates kept.
pub open spec fn sort_seq(s: Seq<u64>) -> Seq<u64>
    decreases s.len(),
{
    if s.len() == 0 {
        Seq::empty()
    } else {
        insert_sorted(sort_seq(s.drop_last()), s.last())
    }
}

/// The digest of a fresh `DefaultHasher` fed with each id of `q`, in order, as eight
/// little-endian bytes.
pub open spec fn ids_digest(q: Seq<u64>) -> u64 {
    DefaultHasher::spec_finish(q.map_values(|x: u64| le64(x)))
}

/// The ascending enumeration of a finite set of attribute hashes.
pub open spec fn canonical(s: Set<u64>) -> Seq<u64> {
    choose|q: Seq<u64>| strictly_sorted(q) && q.to_set() == s
}

/// The archetype id of a set of attribute hashes: the digest of its ascending enumeration.
pub open spec fn archetype_id_of(s: Set<u64>) -> u64 {
    ids_digest(canonical(s))
}

/// Index of the first element of `q` that is not below `x` (`q.len()` if none).
pub open spec fn lower_bound(q: Seq<u64>, x: u64, p: int) -> bool {
    &&& 0 <= p <= q.len()
    &&& forall|i: int| 0 <= i < p ==> q[i] < x
    &&& p < q.len() ==> x <= q[p]
}

pub proof fn lemma_lower_bound_exists(q: Seq<u64>, x: u64) -> (p: int)
    ensures
        lower_bound(q, x, p),
    decreases q.len(),
{
    if q.len() == 0 {
        0
    } else {
        let d = q.drop_last();
        let p0 = lemma_lower_bound_exists(d, x);
        assert(forall|i: int| 0 <= i < d.len() ==> q[i] == d[i]);
        if p0 < d.len() {
            p0
        } else if q.last() < x {
            q.len() as int
        } else {
            d.len() as int
        }
    }
}

pub proof fn lemma_insert_sorted_at(q: Seq<u64>, x: u64, p: int)
    requires
        sorted(q),
        lower_bound(q, x, p),
    ensures
        insert_sorted(q, x) == q.insert(p, x),
    decreases q.len(),
{
    if q.len() == 0 {
        assert(insert_sorted(q, x) =~= q.insert(p, x));
    } else if x <= q[0] {
        assert(p == 0);
        assert(insert_sorted(q, x) =~= q.insert(p, x));
    } else {
        let r = q.drop_first();
        assert(lower_bound(r, x, p - 1));
        lemma_insert_sorted_at(r, x, p - 1);
        assert(insert_sorted(q, x) =~= q.insert(p, x));
    }
}

pub proof fn lemma_insert_sorted_props(q: Seq<u64>, x: u64)
    requires
        sorted(q),
    ensures
        sorted(insert_sorted(q, x)),
        insert_sorted(q, x).len() == q.len() + 1,
        forall|y: u64| #[trigger] insert_sorted(q, x).contains(y) <==> (q.contains(y) || y == x),
        strictly_sorted(q) && !q.contains(x) ==> strictly_sorted(insert_sorted(q, x)),
    decreases q.len(),
{
    if q.len() == 0 {
        assert(insert_sorted(q, x) =~= seq![x]);
    } else if x <= q[0] {
        let r = seq![x] + q;
        assert(r =~= insert_sorted(q, x));
        assert forall|y: u64| r.contains(y) <==> (q.contains(y) || y == x) by {
            if r.contains(y) {
                let k = choose|k: int| 0 <= k < r.len() && r[k] == y;
                if k > 0 {
                    assert(q[k - 1] == y);
                }
            }
            if q.contains(y) {
                let k = choose|k: int| 0 <= k < q.len() && q[k] == y;
                assert(r[k + 1] == y);
            }
            if y == x {
                assert(r[0] == y);
            }
        }
        assert(sorted(r)) by {
            assert forall|i: int, j: int| 0 <= i < j < r.len() implies r[i] <= r[j] by {
                if i > 0 {
                    assert(r[i] == q[i - 1] && r[j] == q[j - 1]);
                } else {
                    assert(r[j] == q[j - 1]);
                    assert(q[0] <= q[j - 1]);
                }
            }
        }
        if strictly_sorted(q) && !q.contains(x) {
            assert forall|i: int, j: int| 0 <= i < j < r.len() implies r[i] < r[j] by {
                if i > 0 {
                    assert(r[i] == q[i - 1] && r[j] == q[j - 1]);
                } else {
                    assert(r[j] == q[j - 1]);
                    assert(q[0] <= q[j - 1]);
                    assert(q[j - 1] != x);
                }
            }
        }
    } else {
        let t = q.drop_first();
        lemma_insert_sorted_props(t, x);
        let it = insert_sorted(t, x);
        let r = seq![q[0]] + it;
        assert(r =~= insert_sorted(q, x));
        assert forall|y: u64| r.contains(y) <==> (q.contains(y) || y == x) by {
            if r.contains(y) {
                let k = choose|k: int| 0 <= k < r.len() && r[k] == y;
                if k > 0 {
                    assert(it[k - 1] == y);
                    assert(it.contains(y));
                    if t.contains(y) {
                        let m = choose|m: int| 0 <= m < t.len() && t[m] == y;
                        assert(q[m + 1] == y);
                    }
                } else {
                    assert(q[0] == y);
                }
            }
            if q.contains(y) {
                let k = choose|k: int| 0 <= k < q.len() && q[k] == y;
                if k > 0 {
                    assert(t[k - 1] == y);
                    assert(t.contains(y));
                    assert(it.contains(y) <==> (t.contains(y) || y == x));
                    let m = choose|m: int| 0 <= m < it.len() && it[m] == y;
                    assert(r[m + 1] == y);
                } else {
                    assert(r[0] == y);
                }
            }
            if y == x {
                assert(it.contains(x) <==> (t.contains(x) || x == x));
                let m = choose|m: int| 0 <= m < it.len() && it[m] == x;
                assert(r[m + 1] == y);
            }
        }
        assert forall|i: int| 0 <= i < it.len() implies q[0] <= #[trigger] it[i] by {
            assert(it.contains(it[i]));
            if t.contains(it[i]) {
                let m = choose|m: int| 0 <= m < t.len() && t[m] == it[i];
                assert(q[m + 1] == it[i]);
            }
        }
        assert(sorted(r)) by {
            assert forall|i: int, j: int| 0 <= i < j < r.len() implies r[i] <= r[j] by {
                if i > 0 {
                    assert(r[i] == it[i - 1] && r[j] == it[j - 1]);
                } else {
                    assert(r[j] == it[j - 1]);
                }
            }
        }
        if strictly_sorted(q) && !q.contains(x) {
            assert(!t.contains(x)) by {
                if t.contains(x) {
                    let m = choose|m: int| 0 <= m < t.len() && t[m] == x;
                    assert(q[m + 1] == x);
                }
            }
            assert forall|i: int| 0 <= i < it.len() implies q[0] < #[trigger] it[i] by {
                assert(it.contains(it[i]));
                if t.contains(it[i]) {
                    let m = choose|m: int| 0 <= m < t.len() && t[m] == it[i];
                    assert(q[m + 1] == it[i]);
                    assert(q[0] < q[m + 1]);
                }
            }
            assert forall|i: int, j: int| 0 <= i < j < r.len() implies r[i] < r[j] by {
                if i > 0 {
                    assert(r[i] == it[i - 1] && r[j] == it[j - 1]);
                } else {
                    assert(r[j] == it[j - 1]);
                }
            }
        }
    }
}

pub proof fn lemma_sort_seq_props(s: Seq<u64>)
    ensures
        sorted(sort_seq(s)),
        sort_seq(s).len() == s.len(),
        forall|y: u64| #[trigger] sort_seq(s).contains(y) <==> s.contains(y),
        s.no_duplicates() ==> strictly_sorted(sort_seq(s)),
    decreases s.len(),
{
    if s.len() > 0 {
        let d = s.drop_last();
        lemma_sort_seq_props(d);
        lemma_insert_sorted_props(sort_seq(d), s.last());
        assert forall|y: u64| s.contains(y) <==> (d.contains(y) || y == s.last()) by {
            if s.contains(y) {
                let k = choose|k: int| 0 <= k < s.len() && s[k] == y;
                if k < s.len() - 1 {
                    assert(d[k] == y);
                }
            }
            if d.contains(y) {
                let k = choose|k: int| 0 <= k < d.len() && d[k] == y;
                assert(s[k] == y);
            }
        }
        if s.no_duplicates() {
            assert(d.no_duplicates());
            assert(!d.contains(s.last())) by {
                if d.contains(s.last()) {
                    let k = choose|k: int| 0 <= k < d.len() && d[k] == s.last();
                    assert(s[k] == s[s.len() - 1]);
                }
            }
        }
    }
}

pub proof fn lemma_sort_seq_sorted_identity(s: Seq<u64>)
    requires
        sorted(s),
    ensures
        sort_seq(s) == s,
    decreases s.len(),
{
    if s.len() > 0 {
        let d = s.drop_last();
        lemma_sort_seq_sorted_identity(d);
        let p = lemma_lower_bound_exists(d, s.last());
        lemma_insert_sorted_at(d, s.last(), p);
        assert forall|i: int| p <= i < d.len() implies d[i] == s.last() by {
            assert(d[p] <= d[i]);
            assert(s[i] <= s[s.len() - 1]);
        }
        assert(d.insert(p, s.last()) =~= s);
    }
}

/// Two strictly increasing sequences with the same elements are equal.
pub proof fn lemma_strictly_sorted_unique(a: Seq<u64>, b: Seq<u64>)
    requires
        strictly_sorted(a),
        strictly_sorted(b),
        a.to_set() == b.to_set(),
    ensures
        a == b,
    decreases a.len(),
{
    if a.len() == 0 {
        if b.len() > 0 {
            assert(b.to_set().contains(b[0]));
        }
        assert(a =~= b);
    } else {
        assert(a.to_set().contains(a[0]));
        assert(b.len() > 0);
        assert(b.to_set().contains(b[0]));
        let k = choose|k: int| 0 <= k < b.len() && b[k] == a[0];
        let m = choose|m: int| 0 <= m < a.len() && a[m] == b[0];
        assert(a[0] <= a[m]);
        assert(b[0] <= b[k]);
        let ta = a.drop_first();
        let tb = b.drop_first();
        assert(ta.to_set() =~= tb.to_set()) by {
            assert forall|y: u64| ta.to_set().contains(y) implies tb.to_set().contains(y) by {
                let i = choose|i: int| 0 <= i < ta.len() && ta[i] == y;
                assert(a[i + 1] == y);
                assert(a.to_set().contains(y));
                let j = choose|j: int| 0 <= j < b.len() && b[j] == y;
                assert(j != 0);
                assert(tb[j - 1] == y);
            }
            assert forall|y: u64| tb.to_set().contains(y) implies ta.to_set().contains(y) by {
                let i = choose|i: int| 0 <= i < tb.len() && tb[i] == y;
                assert(b[i + 1] == y);
                assert(b.to_set().contains(y));
                let j = choose|j: int| 0 <= j < a.len() && a[j] == y;
                assert(j != 0);
                assert(ta[j - 1] == y);
            }
        }
        lemma_strictly_sorted_unique(ta, tb);
        assert(a =~= b) by {
            assert forall|i: int| 0 <= i < a.len() implies a[i] == b[i] by {
                if i > 0 {
                    assert(a[i] == ta[i - 1]);
                    assert(b[i] == tb[i - 1]);
                }
            }
        }
    }
}

/// Every finite set has an ascending enumeration.
pub proof fn lemma_canonical_exists(s: Set<u64>)
    requires
        s.finite(),
    ensures
        strictly_sorted(canonical(s)),
        canonical(s).to_set() == s,
    decreases s.len(),
{
    let q = lemma_enumerate(s);
    assert(strictly_sorted(q) && q.to_set() == s);
}

proof fn lemma_enumerate(s: Set<u64>) -> (q: Seq<u64>)
    requires
        s.finite(),
    ensures
        strictly_sorted(q),
        q.to_set() == s,
    decreases s.len(),
{
    if s.len() == 0 {
        assert(s =~= Set::empty());
        assert(Seq::<u64>::empty().to_set() =~= s);
        Seq::empty()
    } else {
        vstd::set::axiom_set_choose_len(s);
        let m = s.choose();
        assert(s.contains(m));
        assert(s.remove(m).len() < s.len());
        let lo = s.filter(|x: u64| x < m);
        let hi = s.filter(|x: u64| x > m);
        assert(lo.subset_of(s) && hi.subset_of(s));
        vstd::set_lib::lemma_len_subset(lo, s.remove(m));
        vstd::set_lib::lemma_len_subset(hi, s.remove(m));
        assert(lo.subset_of(s.remove(m)));
        assert(hi.subset_of(s.remove(m)));
        let a = lemma_enumerate(lo);
        let b = lemma_enumerate(hi);
        let q = a + seq![m] + b;
        assert forall|i: int| 0 <= i < a.len() implies a[i] < m by {
            assert(a.to_set().contains(a[i]));
        }
        assert forall|i: int| 0 <= i < b.len() implies b[i] > m by {
            assert(b.to_set().contains(b[i]));
        }
        assert forall|i: int, j: int| 0 <= i < j < q.len() implies q[i] < q[j] by {
            if j < a.len() {
            } else if j == a.len() {
            } else if i < a.len() {
                assert(q[i] == a[i]);
                assert(q[j] == b[j - a.len() - 1]);
            } else if i == a.len() {
            } else {
            }
        }
        assert forall|x: u64| q.to_set().contains(x) <==> s.contains(x) by {
            if s.contains(x) {
                if x < m {
                    assert(lo.contains(x));
                    assert(a.to_set().contains(x));
                    let k = choose|k: int| 0 <= k < a.len() && a[k] == x;
                    assert(q[k] == x);
                } else if x > m {
                    assert(hi.contains(x));
                    assert(b.to_set().contains(x));
                    let k = choose|k: int| 0 <= k < b.len() && b[k] == x;
                    assert(q[a.len() + 1 + k] == x);
                } else {
                    assert(q[a.len() as int] == x);
                }
            }
            if q.to_set().contains(x) {
                let k = choose|k: int| 0 <= k < q.len() && q[k] == x;
                if k < a.len() {
                    assert(a[k] == x);
                    assert(a.to_set().contains(x));
                } else if k > a.len() {
                    assert(b[k - a.len() - 1] == x);
                    assert(b.to_set().contains(x));
                }
            }
        }
        assert(q.to_set() =~= s);
        q
    }
}

/// A strictly increasing sequence is the ascending enumeration of its elements.
pub proof fn lemma_canonical_of(q: Seq<u64>)
    requires
        strictly_sorted(q),
    ensures
        canonical(q.to_set()) == q,
{
    let c = canonical(q.to_set());
    assert(strictly_sorted(c) && c.to_set() == q.to_set());
    lemma_strictly_sorted_unique(c, q);
}

/// The digest that a fresh `DefaultHasher` gives for the ids of `q`, each written as
/// eight little-endian bytes. Hashing a `u64` with `Hash` writes its native-endian
/// bytes, so on little-endian targets this is the digest of `q` hashed id by id; on
/// big-endian targets the archetype ids differ from that digest (they are still a
/// function of the attribute set alone).
pub fn digest_ids(q: &[u64]) -> (h: u64)
    ensures
        h == ids_digest(q@),
{
    let mut hasher = DefaultHasher::new();
    let mut i: usize = 0;
    while i < q.len()
        invariant
            i <= q@.len(),
            hasher@ == q@.take(i as int).map_values(|x: u64| le64(x)),
        decreases q@.len() - i,
    {
        let bytes = u64_to_le_bytes(q[i]);
        hasher.write(bytes.as_slice());
        assert(q@.take(i + 1).map_values(|x: u64| le64(x)) =~= q@.take(i as int).map_values(
            |x: u64| le64(x),
        ).push(le64(q@[i as int])));
        i = i + 1;
    }
    assert(q@.take(q@.len() as int) =~= q@);
    hasher.finish()
}

/// First index of the sorted `v` whose element is not below `x`.
fn lower_bound_index(v: &Vec<u64>, x: u64) -> (p: usize)
    requires
        sorted(v@),
    ensures
        lower_bound(v@, x, p as int),
{
    let mut p: usize = 0;
    while p < v.len() && v[p] < x
        invariant
            p <= v@.len(),
            forall|i: int| 0 <= i < p ==> v@[i] < x,
        decreases v@.len() - p,
    {
        p = p + 1;
    }
    p
}

/// The ids of `hashes` in ascending order, duplicates kept.
pub fn sort_ids(hashes: &[u64]) -> (r: Vec<u64>)
    ensures
        r@ == sort_seq(hashes@),
{
    let mut r: Vec<u64> = Vec::new();
    let mut i: usize = 0;
    while i < hashes.len()
        invariant
            i <= hashes@.len(),
            r@ == sort_seq(hashes@.take(i as int)),
        decreases hashes@.len() - i,
    {
        proof {
            lemma_sort_seq_props(hashes@.take(i as int));
        }
        let x = hashes[i];
        let p = lower_bound_index(&r, x);
        proof {
            lemma_insert_sorted_at(r@, x, p as int);
            assert(hashes@.take(i + 1).drop_last() =~= hashes@.take(i as int));
        }
        r.insert(p, x);
        i = i + 1;
    }
    assert(hashes@.take(hashes@.len() as int) =~= hashes@);
    r
}

/// Adds `x` to the strictly increasing `v`; `false` when it was already there.
pub fn set_insert(v: &mut Vec<u64>, x: u64) -> (added: bool)
    requires
        strictly_sorted(old(v)@),
    ensures
        strictly_sorted(final(v)@),
        final(v)@.to_set() == old(v)@.to_set().insert(x),
        added == !old(v)@.contains(x),
        !added ==> final(v)@ == old(v)@,
{
    let p = lower_bound_index(v, x);
    if p < v.len() && v[p] == x {
        assert(old(v)@.to_set().insert(x) =~= old(v)@.to_set());
        return false;
    }
    proof {
        assert(!v@.contains(x)) by {
            if v@.contains(x) {
                let k = choose|k: int| 0 <= k < v@.len() && v@[k] == x;
                if k >= p {
                    assert(v@[p as int] <= v@[k]);
                }
            }
        }
        lemma_insert_sorted_at(v@, x, p as int);
        lemma_insert_sorted_props(v@, x);
    }
    v.insert(p, x);
    proof {
        assert forall|y: u64| final(v)@.to_set().contains(y) <==> old(v)@.to_set().insert(x).contains(y) by {
            assert(final(v)@.contains(y) <==> (old(v)@.contains(y) || y == x));
        }
        assert(final(v)@.to_set() =~= old(v)@.to_set().insert(x));
    }
    true
}

/// Removes `x` from the strictly increasing `v`; `false` when it was not there.
pub fn set_remove(v: &mut Vec<u64>, x: u64) -> (removed: bool)
    requires
        strictly_sorted(old(v)@),
    ensures
        strictly_sorted(final(v)@),
        final(v)@.to_set() == old(v)@.to_set().remove(x),
        removed == old(v)@.contains(x),
        !removed ==> final(v)@ == old(v)@,
{
    let p = lower_bound_index(v, x);
    if p < v.len() && v[p] == x {
        let ghost pre = v@;
        v.remove(p);
        proof {
            assert(final(v)@ =~= pre.remove(p as int));
            assert forall|y: u64| final(v)@.to_set().contains(y) <==> pre.to_set().remove(x).contains(y) by {
                if final(v)@.contains(y) {
                    let k = choose|k: int| 0 <= k < final(v)@.len() && final(v)@[k] == y;
                    if k < p {
                        assert(pre[k] == y);
                    } else {
                        assert(pre[k + 1] == y);
                    }
                    assert(pre.contains(y));
                }
                if pre.contains(y) && y != x {
                    let k = choose|k: int| 0 <= k < pre.len() && pre[k] == y;
                    assert(k != p);
                    if k < p {
                        assert(final(v)@[k] == y);
                    } else {
                        assert(final(v)@[k - 1] == y);
                    }
                }
            }
            assert(final(v)@.to_set() =~= pre.to_set().remove(x));
        }
        true
    } else {
        proof {
            assert(!v@.contains(x)) by {
                if v@.contains(x) {
                    let k = choose|k: int| 0 <= k < v@.len() && v@[k] == x;
                    if k >= p {
                        assert(v@[p as int] <= v@[k]);
                    }
                }
            }
            assert(old(v)@.to_set().remove(x) =~= old(v)@.to_set());
        }
        false
    }
}

/// Whether the strictly increasing `v` holds `x`.
pub fn set_contains(v: &Vec<u64>, x: u64) -> (r: bool)
    requires
        strictly_sorted(v@),
    ensures
        r == v@.contains(x),
{
    let p = lower_bound_index(v, x);
    if p < v.len() && v[p] == x {
        true
    } else {
        proof {
            if v@.contains(x) {
                let k = choose|k: int| 0 <= k < v@.len() && v@[k] == x;
                if k >= p {
                    assert(v@[p as int] <= v@[k]);
                }
            }
        }
        false
    }
}

/// The ascending enumeration of the elements of `hashes`, without duplicates.
pub fn set_from_ids(hashes: &[u64]) -> (v: Vec<u64>)
    ensures
        strictly_sorted(v@),
        v@.to_set() == hashes@.to_set(),
{
    let mut v: Vec<u64> = Vec::new();
    let mut i: usize = 0;
    while i < hashes.len()
        invariant
            i <= hashes@.len(),
            strictly_sorted(v@),
            v@.to_set() == hashes@.take(i as int).to_set(),
        decreases hashes@.len() - i,
    {
        set_insert(&mut v, hashes[i]);
        assert(hashes@.take(i + 1) =~= hashes@.take(i as int).push(hashes@[i as int]));
        i = i + 1;
    }
    assert(hashes@.take(hashes@.len() as int) =~= hashes@);
    v
}

/// The archetype id of the set enumerated by the strictly increasing `v`.
pub fn archetype_id(v: &Vec<u64>) -> (id: u64)
    requires
        strictly_sorted(v@),
    ensures
        id == archetype_id_of(v@.to_set()),
{
    proof {
        lemma_canonical_of(v@);
    }
    digest_ids(v.as_slice())
}

} // verus!

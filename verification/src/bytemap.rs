//! A map from byte strings to optional byte strings, held as a list of distinct keys.
use crate::storage::bytes_eq;
use vstd::prelude::*;

verus! {

pub open spec fn opt_bytes(o: Option<Vec<u8>>) -> Option<Seq<u8>> {
    match o {
        Some(v) => Some(v@),
        None => None,
    }
}

pub open spec fn has_key(s: Seq<(Vec<u8>, Option<Vec<u8>>)>, k: Seq<u8>) -> bool {
    exists|i: int| 0 <= i < s.len() && (#[trigger] s[i]).0@ == k
}

pub open spec fn key_index(s: Seq<(Vec<u8>, Option<Vec<u8>>)>, k: Seq<u8>) -> int {
    choose|i: int| 0 <= i < s.len() && (#[trigger] s[i]).0@ == k
}

pub open spec fn distinct_keys(s: Seq<(Vec<u8>, Option<Vec<u8>>)>) -> bool {
    forall|i: int, j: int| 0 <= i < s.len() && 0 <= j < s.len() && i != j ==> (#[trigger] s[i]).0@ != (#[trigger] s[j]).0@
}

/// Byte-keyed map whose values may be `None` (a recorded absence).
pub struct ByteMap {
    entries: Vec<(Vec<u8>, Option<Vec<u8>>)>,
}

impl View for ByteMap {
    type V = Map<Seq<u8>, Option<Seq<u8>>>;

    closed spec fn view(&self) -> Map<Seq<u8>, Option<Seq<u8>>> {
        Map::new(
            |k: Seq<u8>| has_key(self.entries@, k),
            |k: Seq<u8>| opt_bytes(self.entries@[key_index(self.entries@, k)].1),
        )
    }
}

impl ByteMap {
    pub closed spec fn wf(&self) -> bool {
        distinct_keys(self.entries@)
    }

    pub fn new() -> (r: Self)
        ensures
            r.wf(),
            r@ == Map::<Seq<u8>, Option<Seq<u8>>>::empty(),
    {
        let r = ByteMap { entries: Vec::new() };
        assert(r@ =~= Map::<Seq<u8>, Option<Seq<u8>>>::empty());
        r
    }

    fn find(&self, key: &[u8]) -> (r: Option<usize>)
        requires
            self.wf(),
        ensures
            r matches Some(i) ==> i < self.entries@.len() && self.entries@[i as int].0@ == key@,
            r is None ==> !has_key(self.entries@, key@),
    {
        let mut i: usize = 0;
        while i < self.entries.len()
            invariant
                i <= self.entries@.len(),
                forall|j: int| 0 <= j < i ==> (#[trigger] self.entries@[j]).0@ != key@,
            decreases self.entries@.len() - i,
        {
            if bytes_eq(self.entries[i].0.as_slice(), key) {
                return Some(i);
            }
            i = i + 1;
        }
        None
    }

    /// The value recorded for `key`, or `None` when nothing is recorded.
    pub fn get(&self, key: &[u8]) -> (r: Option<&Option<Vec<u8>>>)
        requires
            self.wf(),
        ensures
            r matches Some(v) ==> self@.contains_key(key@) && opt_bytes(*v) == self@[key@],
            r is None ==> !self@.contains_key(key@),
    {
        match self.find(key) {
            Some(i) => {
                proof {
                    let k = key_index(self.entries@, key@);
                    assert(self.entries@[k].0@ == key@);
                }
                Some(&self.entries[i].1)
            },
            None => None,
        }
    }

    /// Records `value` for `key`, replacing any earlier record.
    pub fn insert(&mut self, key: Vec<u8>, value: Option<Vec<u8>>)
        requires
            old(self).wf(),
        ensures
            final(self).wf(),
            final(self)@ == old(self)@.insert(key@, opt_bytes(value)),
    {
        let ghost kv = key@;
        let ghost vv = opt_bytes(value);
        match self.find(key.as_slice()) {
            Some(i) => {
                let ghost pre = self.entries@;
                self.entries.set(i, (key, value));
                proof {
                    assert forall|k: Seq<u8>| #[trigger] final(self)@.contains_key(k) <==> old(self)@.insert(kv, vv).contains_key(k) by {
                        if has_key(pre, k) {
                            let j = choose|j: int| 0 <= j < pre.len() && (#[trigger] pre[j]).0@ == k;
                            if j != i {
                                assert(self.entries@[j].0@ == k);
                            }
                        }
                        if k == kv {
                            assert(self.entries@[i as int].0@ == k);
                        }
                        if has_key(self.entries@, k) {
                            let j = choose|j: int| 0 <= j < self.entries@.len() && (#[trigger] self.entries@[j]).0@ == k;
                            assert(pre[j].0@ == k || j == i);
                        }
                    }
                    assert forall|k: Seq<u8>| #[trigger] final(self)@.contains_key(k) implies final(self)@[k] == old(self)@.insert(kv, vv)[k] by {
                        let j = key_index(self.entries@, k);
                        if k == kv {
                            assert(j == i);
                        } else {
                            let j0 = key_index(pre, k);
                            assert(pre[j].0@ == k);
                            assert(j == j0);
                        }
                    }
                    assert(final(self)@ =~= old(self)@.insert(kv, vv));
                }
            },
            None => {
                let ghost pre = self.entries@;
                self.entries.push((key, value));
                proof {
                    let n = pre.len() as int;
                    assert forall|k: Seq<u8>| #[trigger] final(self)@.contains_key(k) <==> old(self)@.insert(kv, vv).contains_key(k) by {
                        if has_key(pre, k) {
                            let j = choose|j: int| 0 <= j < pre.len() && (#[trigger] pre[j]).0@ == k;
                            assert(self.entries@[j].0@ == k);
                        }
                        if k == kv {
                            assert(self.entries@[n].0@ == k);
                        }
                        if has_key(self.entries@, k) {
                            let j = choose|j: int| 0 <= j < self.entries@.len() && (#[trigger] self.entries@[j]).0@ == k;
                            if j < n {
                                assert(pre[j].0@ == k);
                            }
                        }
                    }
                    assert forall|k: Seq<u8>| #[trigger] final(self)@.contains_key(k) implies final(self)@[k] == old(self)@.insert(kv, vv)[k] by {
                        let j = key_index(self.entries@, k);
                        if k == kv {
                            assert(j == n);
                        } else {
                            let j0 = key_index(pre, k);
                            assert(j < n);
                            assert(pre[j].0@ == k);
                            assert(j == j0);
                        }
                    }
                    assert(final(self)@ =~= old(self)@.insert(kv, vv));
                }
            },
        }
    }
}

} // verus!

//! Typed, directed relations between entities, and the step that moves a graph
//! traversal from one set of entities to the entities related to them.
use crate::attribute::{hash_name, name_digest};
use crate::query::contains_id;
use crate::storage::{ids_from_keys, ids_in_keys};
use vstd::prelude::*;

verus! {

/// A named kind of relation; a value of the type is the data carried by one edge.
pub trait Edge {
    const NAME: &'static str;

    fn hash_id(&self) -> (h: u64)
        ensures
            h == name_digest(Self::NAME@),
    {
        hash_name(Self::NAME)
    }
}

/// The identifier under which the edges of type `E` are stored.
pub fn edge_type_hash<E: Edge>() -> (h: u64)
    ensures
        h == name_digest(E::NAME@),
{
    hash_name(E::NAME)
}

/// Where the related entity sits in the keys that one step scans: the target of a
/// forward record (bytes 26..42), or the source of a reverse record (bytes 27..43).
pub open spec fn endpoint_offset(incoming: bool) -> int {
    if incoming {
        27
    } else {
        26
    }
}

/// Whether `id` is read from one of the first `n` scans.
pub open spec fn reached(scans: Seq<Vec<Vec<u8>>>, offset: int, n: int, id: u128) -> bool {
    exists|i: int| 0 <= i < n && #[trigger] ids_in_keys(scans[i]@, offset).contains(id)
}

/// One traversal step. `scans[i]` holds the keys that the edge scan of the `i`-th
/// entity of the frontier returned (forward records when `incoming` is false,
/// reverse records when it is true). The next frontier holds every entity read
/// from those keys, once.
pub fn next_frontier(scans: &Vec<Vec<Vec<u8>>>, incoming: bool) -> (next: Vec<u128>)
    ensures
        next@.no_duplicates(),
        forall|id: u128|
            next@.contains(id) <==> reached(scans@, endpoint_offset(incoming), scans@.len() as int, id),
        forall|i: int, id: u128|
            #![trigger ids_in_keys(scans@[i]@, endpoint_offset(incoming)).contains(id)]
            0 <= i < scans@.len() && ids_in_keys(scans@[i]@, endpoint_offset(incoming)).contains(id)
                ==> next@.contains(id),
        forall|id: u128|
            #[trigger] next@.contains(id) ==> exists|i: int|
                0 <= i < scans@.len() && (#[trigger] ids_in_keys(
                    scans@[i]@,
                    endpoint_offset(incoming),
                )).contains(id),
{
    let offset: usize = if incoming {
        27
    } else {
        26
    };
    let ghost off = endpoint_offset(incoming);
    let mut next: Vec<u128> = Vec::new();
    let mut i: usize = 0;
    while i < scans.len()
        invariant
            off == offset as int,
            offset <= 64,
            i <= scans@.len(),
            next@.no_duplicates(),
            forall|id: u128| next@.contains(id) <==> reached(scans@, off, i as int, id),
        decreases scans@.len() - i,
    {
        let ids = ids_from_keys(&scans[i], offset);
        let mut j: usize = 0;
        while j < ids.len()
            invariant
                off == offset as int,
                i < scans@.len(),
                ids@ == ids_in_keys(scans@[i as int]@, off),
                j <= ids@.len(),
                next@.no_duplicates(),
                forall|id: u128|
                    next@.contains(id) <==> (reached(scans@, off, i as int, id) || ids@.take(
                        j as int,
                    ).contains(id)),
            decreases ids@.len() - j,
        {
            let x = ids[j];
            let ghost prev = next@;
            if !contains_id(&next, x) {
                next.push(x);
                proof {
                    assert(next@[prev.len() as int] == x);
                    assert forall|a: int, b: int| 0 <= a < b < next@.len() implies next@[a] != next@[b] by {
                        if b == prev.len() {
                            assert(prev[a] == next@[a]);
                        }
                    }
                }
            }
            proof {
                assert(next@.contains(x));
                assert forall|id: u128| #[trigger] next@.contains(id) <==> (prev.contains(id) || id == x) by {
                    if next@.contains(id) && id != x {
                        let k = choose|k: int| 0 <= k < next@.len() && #[trigger] next@[k] == id;
                        assert(prev[k] == id);
                    }
                    if prev.contains(id) {
                        let k = choose|k: int| 0 <= k < prev.len() && #[trigger] prev[k] == id;
                        assert(next@[k] == id);
                    }
                }
                let before = ids@.take(j as int);
                let after = ids@.take(j + 1);
                assert(after =~= before.push(x));
                assert forall|id: u128|
                    next@.contains(id) <==> (reached(scans@, off, i as int, id) || after.contains(id)) by {
                    if id == x {
                        assert(after[j as int] == x);
                    }
                    if before.contains(id) {
                        let k = choose|k: int| 0 <= k < before.len() && #[trigger] before[k] == id;
                        assert(after[k] == id);
                    }
                    if after.contains(id) && id != x {
                        let k = choose|k: int| 0 <= k < after.len() && #[trigger] after[k] == id;
                        assert(before[k] == id);
                    }
                }
            }
            j = j + 1;
        }
        proof {
            assert(ids@.take(j as int) =~= ids@);
            assert forall|id: u128|
                next@.contains(id) <==> reached(scans@, off, i + 1, id) by {
                if ids@.contains(id) {
                    assert(ids_in_keys(scans@[i as int]@, off).contains(id));
                }
                if reached(scans@, off, i + 1, id) {
                    let k = choose|k: int| 0 <= k < i + 1 && #[trigger] ids_in_keys(scans@[k]@, off).contains(id);
                    if k < i {
                        assert(reached(scans@, off, i as int, id));
                    }
                }
                if reached(scans@, off, i as int, id) {
                    let k = choose|k: int| 0 <= k < i && #[trigger] ids_in_keys(scans@[k]@, off).contains(id);
                    assert(0 <= k < i + 1);
                }
            }
        }
        i = i + 1;
    }
    proof {
        assert forall|i: int, id: u128|
            #![trigger ids_in_keys(scans@[i]@, off).contains(id)]
            0 <= i < scans@.len() && ids_in_keys(scans@[i]@, off).contains(id) implies next@.contains(id) by {
            assert(reached(scans@, off, scans@.len() as int, id));
        }
    }
    next
}

} // verus!

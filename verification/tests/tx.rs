use std::collections::{BTreeMap, HashSet};
use thingdb::archetype::Registry;
use thingdb::bytemap::ByteMap;
use thingdb::commit::{batch_ops, BatchOp};
use thingdb::edge::next_frontier;
use thingdb::storage::{
    attr_index_key, attr_index_prefix, attrs_from_values, edge_key, entities_from_index_keys,
    entity_attr_key, entity_attrs_prefix, entity_to_archetype_key, incoming_edge_prefix,
    outgoing_edge_prefix, reverse_edge_key, u64_value, KeyEncoder,
};
use thingdb::tx::{Fetch, TxCore};

/// An in-memory stand-in for the key-value store.
#[derive(Default)]
struct Store {
    map: BTreeMap<Vec<u8>, Vec<u8>>,
}

impl Store {
    fn scan(&self, prefix: &[u8]) -> Vec<(Vec<u8>, Vec<u8>)> {
        self.map
            .range(prefix.to_vec()..)
            .take_while(|(k, _)| k.starts_with(prefix))
            .map(|(k, v)| (k.clone(), v.clone()))
            .collect()
    }

    fn entity_attrs(&self, thing: u128) -> Vec<u64> {
        let values: Vec<Vec<u8>> = self
            .scan(&entity_attrs_prefix(thing))
            .into_iter()
            .map(|(_, v)| v)
            .collect();
        attrs_from_values(&values)
    }

    fn entities_with_attr(&self, hash: u64) -> Vec<u128> {
        let keys: Vec<Vec<u8>> = self
            .scan(&attr_index_prefix(hash))
            .into_iter()
            .map(|(k, _)| k)
            .collect();
        entities_from_index_keys(&keys)
    }

    fn run(&self, tx: &mut TxCore, mut op: impl FnMut(&mut TxCore) -> Result<(), Fetch>) {
        loop {
            match op(tx) {
                Ok(()) => return,
                Err(Fetch::Attrs(t)) => {
                    let attrs = self.entity_attrs(t);
                    tx.supply_attrs(t, &attrs);
                }
                Err(Fetch::Data(k)) => {
                    let v = self.map.get(&k).cloned();
                    tx.supply_data(k, v);
                }
            }
        }
    }

    fn commit(&mut self, tx: &TxCore, registry: Option<&mut Registry>) {
        for op in batch_ops(tx) {
            match op {
                BatchOp::Delete(k) => {
                    self.map.remove(&k);
                }
                BatchOp::Put(k, v) => {
                    self.map.insert(k, v);
                }
            }
        }
        if let Some(reg) = registry {
            let mut stored = ByteMap::new();
            for k in tx.cache_reads() {
                let v = self.map.get(&k).cloned();
                stored.insert(k, v);
            }
            assert!(reg.has_room(tx.touched_count()));
            tx.update_cache(reg, &stored);
        }
    }
}

fn arch_of(hashes: &[u64]) -> u64 {
    let set: HashSet<u64> = hashes.iter().copied().collect();
    Registry::compute_archetype_id(&set)
}

const TAG: u64 = 11;
const HEALTH: u64 = 22;
const POS: u64 = 33;

#[test]
fn operation_asks_for_attrs_first() {
    let mut tx = TxCore::new();
    assert!(tx.needs_attrs(1));
    match tx.add(1, TAG, vec![1]) {
        Err(Fetch::Attrs(t)) => assert_eq!(t, 1),
        _ => panic!("expected a request for the attribute set"),
    }
    assert!(tx.ops().is_empty());
    tx.supply_attrs(1, &[]);
    assert!(!tx.needs_attrs(1));
    assert!(tx.add(1, TAG, vec![1]).is_ok());
}

#[test]
fn migration_asks_for_stored_data() {
    let mut store = Store::default();
    let mut tx = TxCore::new();
    store.run(&mut tx, |tx| tx.add(1, TAG, vec![7]));
    store.commit(&tx, None);

    let mut tx2 = TxCore::new();
    tx2.supply_attrs(1, &store.entity_attrs(1));
    match tx2.add(1, HEALTH, vec![9]) {
        Err(Fetch::Data(k)) => assert_eq!(k, KeyEncoder::encode(arch_of(&[TAG]), TAG, 1)),
        _ => panic!("expected a request for stored data"),
    }
}

#[test]
fn add_single_component_writes_all_records() {
    let mut store = Store::default();
    let mut tx = TxCore::new();
    store.run(&mut tx, |tx| tx.add(1, TAG, vec![5, 6]));
    store.commit(&tx, None);

    let arch = arch_of(&[TAG]);
    assert_eq!(store.map.get(&KeyEncoder::encode(arch, TAG, 1)), Some(&vec![5, 6]));
    assert_eq!(store.map.get(&entity_to_archetype_key(1)), Some(&u64_value(arch)));
    assert_eq!(store.map.get(&entity_attr_key(1, TAG)), Some(&u64_value(TAG)));
    assert_eq!(store.map.get(&attr_index_key(TAG, 1)), Some(&vec![]));
    assert_eq!(store.entity_attrs(1), vec![TAG]);
}

#[test]
fn add_duplicate_component_changes_nothing() {
    let mut store = Store::default();
    let mut tx = TxCore::new();
    store.run(&mut tx, |tx| tx.add(1, TAG, vec![1]));
    let ops = tx.ops().len();
    store.run(&mut tx, |tx| tx.add(1, TAG, vec![2]));
    assert_eq!(tx.ops().len(), ops);
    store.commit(&tx, None);
    assert_eq!(store.map.get(&KeyEncoder::encode(arch_of(&[TAG]), TAG, 1)), Some(&vec![1]));
}

#[test]
fn set_overwrites_in_place_and_adds_when_missing() {
    let mut store = Store::default();
    let mut tx = TxCore::new();
    store.run(&mut tx, |tx| tx.add(1, HEALTH, vec![10]));
    store.commit(&tx, None);

    let mut tx = TxCore::new();
    store.run(&mut tx, |tx| tx.set(1, HEALTH, vec![99]));
    store.commit(&tx, None);
    assert_eq!(store.map.get(&KeyEncoder::encode(arch_of(&[HEALTH]), HEALTH, 1)), Some(&vec![99]));

    let mut tx = TxCore::new();
    store.run(&mut tx, |tx| tx.set(2, HEALTH, vec![42]));
    store.commit(&tx, None);
    assert_eq!(store.map.get(&KeyEncoder::encode(arch_of(&[HEALTH]), HEALTH, 2)), Some(&vec![42]));
}

#[test]
fn add_migrates_existing_data_to_new_archetype() {
    let mut store = Store::default();
    let mut tx = TxCore::new();
    store.run(&mut tx, |tx| tx.add(1, POS, vec![1, 2]));
    store.commit(&tx, None);

    let mut tx = TxCore::new();
    store.run(&mut tx, |tx| tx.add(1, HEALTH, vec![3]));
    store.commit(&tx, None);

    let new_arch = arch_of(&[POS, HEALTH]);
    assert_ne!(new_arch, arch_of(&[POS]));
    assert_eq!(store.map.get(&KeyEncoder::encode(new_arch, POS, 1)), Some(&vec![1, 2]));
    assert_eq!(store.map.get(&KeyEncoder::encode(new_arch, HEALTH, 1)), Some(&vec![3]));
    assert_eq!(store.map.get(&entity_to_archetype_key(1)), Some(&u64_value(new_arch)));
}

#[test]
fn remove_component_migrates_and_deletes() {
    let mut store = Store::default();
    let mut tx = TxCore::new();
    store.run(&mut tx, |tx| tx.add(1, TAG, vec![1]));
    store.run(&mut tx, |tx| tx.add(1, HEALTH, vec![2]));
    store.commit(&tx, None);

    let mut tx = TxCore::new();
    store.run(&mut tx, |tx| tx.remove(1, TAG));
    store.commit(&tx, None);

    let old_arch = arch_of(&[TAG, HEALTH]);
    let new_arch = arch_of(&[HEALTH]);
    assert_eq!(store.entity_attrs(1), vec![HEALTH]);
    assert!(store.map.get(&KeyEncoder::encode(old_arch, TAG, 1)).is_none());
    assert_eq!(store.map.get(&KeyEncoder::encode(new_arch, HEALTH, 1)), Some(&vec![2]));
    assert_eq!(store.map.get(&entity_to_archetype_key(1)), Some(&u64_value(new_arch)));
    assert!(store.entities_with_attr(TAG).is_empty());
    assert_eq!(store.entities_with_attr(HEALTH), vec![1]);
}

#[test]
fn remove_last_component_clears_entity() {
    let mut store = Store::default();
    let mut tx = TxCore::new();
    store.run(&mut tx, |tx| tx.add(1, TAG, vec![1]));
    store.commit(&tx, None);

    let mut tx = TxCore::new();
    store.run(&mut tx, |tx| tx.remove(1, TAG));
    store.commit(&tx, None);
    assert!(store.entity_attrs(1).is_empty());
    assert!(store.map.get(&entity_to_archetype_key(1)).is_none());
    assert!(store.map.is_empty());
}

#[test]
fn remove_missing_component_changes_nothing() {
    let mut store = Store::default();
    let mut tx = TxCore::new();
    store.run(&mut tx, |tx| tx.add(1, TAG, vec![1]));
    store.commit(&tx, None);

    let mut tx = TxCore::new();
    store.run(&mut tx, |tx| tx.remove(1, HEALTH));
    assert!(tx.ops().is_empty());
}

#[test]
fn destroy_removes_everything_and_twice_is_once() {
    let mut store = Store::default();
    let mut tx = TxCore::new();
    store.run(&mut tx, |tx| tx.add(1, TAG, vec![1]));
    store.run(&mut tx, |tx| tx.add(1, HEALTH, vec![2]));
    store.run(&mut tx, |tx| tx.add(2, TAG, vec![3]));
    store.commit(&tx, None);

    let mut tx = TxCore::new();
    store.run(&mut tx, |tx| tx.destroy(1));
    let ops = tx.ops().len();
    store.run(&mut tx, |tx| tx.destroy(1));
    assert_eq!(tx.ops().len(), ops);
    store.commit(&tx, None);

    assert!(store.entity_attrs(1).is_empty());
    assert!(store.map.get(&entity_to_archetype_key(1)).is_none());
    assert_eq!(store.entities_with_attr(TAG), vec![2]);
    assert_eq!(store.entity_attrs(2), vec![TAG]);
}

#[test]
fn destroy_unknown_entity_is_noop() {
    let store = Store::default();
    let mut tx = TxCore::new();
    store.run(&mut tx, |tx| tx.destroy(999));
    assert!(tx.ops().is_empty());
}

#[test]
fn add_after_remove_in_same_transaction() {
    let mut store = Store::default();
    let mut tx = TxCore::new();
    store.run(&mut tx, |tx| tx.add(1, TAG, vec![1]));
    store.run(&mut tx, |tx| tx.add(1, HEALTH, vec![10]));
    store.run(&mut tx, |tx| tx.remove(1, TAG));
    store.run(&mut tx, |tx| tx.add(1, TAG, vec![2]));
    store.commit(&tx, None);

    let arch = arch_of(&[TAG, HEALTH]);
    let mut attrs = store.entity_attrs(1);
    attrs.sort();
    assert_eq!(attrs, vec![TAG, HEALTH]);
    assert_eq!(store.map.get(&KeyEncoder::encode(arch, TAG, 1)), Some(&vec![2]));
    assert_eq!(store.map.get(&KeyEncoder::encode(arch, HEALTH, 1)), Some(&vec![10]));
}

#[test]
fn commit_populates_cache() {
    let mut store = Store::default();
    let mut reg = Registry::new();
    let mut tx = TxCore::new();
    store.run(&mut tx, |tx| tx.add(1, HEALTH, vec![100]));
    store.run(&mut tx, |tx| tx.add(1, TAG, vec![]));
    store.commit(&tx, Some(&mut reg));

    assert_eq!(reg.entity_archetype_id(1), Some(arch_of(&[HEALTH, TAG])));
    assert_eq!(reg.read_component(1, HEALTH), Some(&vec![100]));

    let mut tx = TxCore::new();
    store.run(&mut tx, |tx| tx.remove(1, TAG));
    store.commit(&tx, Some(&mut reg));
    assert_eq!(reg.entity_archetype_id(1), Some(arch_of(&[HEALTH])));
    assert_eq!(reg.read_component(1, HEALTH), Some(&vec![100]));
    assert!(reg.read_component(1, TAG).is_none());

    let mut tx = TxCore::new();
    store.run(&mut tx, |tx| tx.destroy(1));
    store.commit(&tx, Some(&mut reg));
    assert!(reg.entity_archetype_id(1).is_none());
}

#[test]
fn edges_relate_unrelate_and_scan() {
    let mut store = Store::default();
    let owns = 5u64;
    let knows = 6u64;
    let mut tx = TxCore::new();
    tx.relate(owns, 1, 2, vec![]);
    tx.relate(owns, 1, 3, vec![]);
    tx.relate(knows, 1, 2, vec![10]);
    store.commit(&tx, None);

    assert_eq!(store.map.get(&edge_key(knows, 1, 2)), Some(&vec![10]));
    assert_eq!(store.map.get(&reverse_edge_key(knows, 2, 1)), Some(&vec![10]));
    assert_eq!(store.scan(&outgoing_edge_prefix(owns, 1)).len(), 2);
    assert_eq!(store.scan(&outgoing_edge_prefix(knows, 1)).len(), 1);

    let mut tx = TxCore::new();
    tx.unrelate(owns, 1, 2);
    store.commit(&tx, None);
    assert_eq!(store.scan(&outgoing_edge_prefix(owns, 1)).len(), 1);
    assert!(store.scan(&incoming_edge_prefix(owns, 2)).is_empty());

    let keys: Vec<Vec<u8>> = store
        .scan(&outgoing_edge_prefix(owns, 1))
        .into_iter()
        .map(|(k, _)| k)
        .collect();
    let mut tx = TxCore::new();
    tx.unrelate_all_from(owns, 1, &keys);
    store.commit(&tx, None);
    assert!(store.scan(&outgoing_edge_prefix(owns, 1)).is_empty());
    assert!(store.scan(&incoming_edge_prefix(owns, 3)).is_empty());
    assert_eq!(store.scan(&outgoing_edge_prefix(knows, 1)).len(), 1);
}

fn step(store: &Store, frontier: &[u128], edge: u64, incoming: bool) -> Vec<u128> {
    let scans: Vec<Vec<Vec<u8>>> = frontier
        .iter()
        .map(|&t| {
            let prefix = if incoming {
                incoming_edge_prefix(edge, t)
            } else {
                outgoing_edge_prefix(edge, t)
            };
            store.scan(&prefix).into_iter().map(|(k, _)| k).collect()
        })
        .collect();
    next_frontier(&scans, incoming)
}

#[test]
fn traversal_steps_deduplicate_and_follow_direction() {
    let mut store = Store::default();
    let owns = 5u64;
    let belongs = 7u64;
    let mut tx = TxCore::new();
    tx.relate(owns, 1, 2, vec![]);
    tx.relate(owns, 1, 3, vec![]);
    tx.relate(belongs, 2, 4, vec![]);
    tx.relate(belongs, 3, 4, vec![]);
    store.commit(&tx, None);

    let hop1 = step(&store, &[1], owns, false);
    let mut sorted = hop1.clone();
    sorted.sort();
    assert_eq!(sorted, vec![2, 3]);
    let hop2 = step(&store, &hop1, belongs, false);
    assert_eq!(hop2, vec![4]);

    let back = step(&store, &[4], belongs, true);
    let back2 = step(&store, &back, owns, true);
    assert_eq!(back2, vec![1]);

    assert!(step(&store, &[99], owns, false).is_empty());
    assert!(next_frontier(&Vec::new(), false).is_empty());
}

#[test]
fn batch_keeps_buffered_order() {
    let mut tx = TxCore::new();
    tx.relate(5, 1, 2, vec![9]);
    tx.unrelate(5, 1, 2);
    let ops = batch_ops(&tx);
    assert_eq!(ops.len(), 4);
    assert!(matches!(&ops[0], BatchOp::Put(k, v) if *k == edge_key(5, 1, 2) && *v == vec![9]));
    assert!(matches!(&ops[1], BatchOp::Put(k, _) if *k == reverse_edge_key(5, 2, 1)));
    assert!(matches!(&ops[2], BatchOp::Delete(k) if *k == edge_key(5, 1, 2)));
    assert!(matches!(&ops[3], BatchOp::Delete(k) if *k == reverse_edge_key(5, 2, 1)));

    // the later delete wins
    let mut store = Store::default();
    store.commit(&tx, None);
    assert!(store.map.get(&edge_key(5, 1, 2)).is_none());
    assert!(store.map.get(&reverse_edge_key(5, 2, 1)).is_none());

    // and a later write wins over an earlier delete
    let mut tx = TxCore::new();
    tx.unrelate(5, 1, 2);
    tx.relate(5, 1, 2, vec![7]);
    store.commit(&tx, None);
    assert_eq!(store.map.get(&edge_key(5, 1, 2)), Some(&vec![7]));
}

#[test]
fn cache_and_store_agree_after_commit() {
    let mut store = Store::default();
    let mut reg = Registry::new();
    let mut tx = TxCore::new();
    store.run(&mut tx, |tx| tx.add(1, HEALTH, vec![42]));
    store.run(&mut tx, |tx| tx.add(2, HEALTH, vec![43]));
    store.run(&mut tx, |tx| tx.set(1, HEALTH, vec![44]));
    store.commit(&tx, Some(&mut reg));
    for (t, v) in [(1u128, vec![44u8]), (2, vec![43])] {
        let arch = reg.entity_archetype_id(t).unwrap();
        assert_eq!(store.map.get(&KeyEncoder::encode(arch, HEALTH, t)), Some(&v));
        assert_eq!(reg.read_component(t, HEALTH), Some(&v));
    }
}

#[test]
fn add_then_remove_in_one_transaction_leaves_nothing_stored() {
    let mut store = Store::default();
    let mut reg = Registry::new();
    let mut tx = TxCore::new();
    store.run(&mut tx, |tx| tx.add(1, TAG, vec![1]));
    store.run(&mut tx, |tx| tx.remove(1, TAG));
    store.commit(&tx, Some(&mut reg));
    assert!(store.entity_attrs(1).is_empty());
    assert!(store.entities_with_attr(TAG).is_empty());
    assert!(store.map.get(&entity_to_archetype_key(1)).is_none());
    assert!(store.map.get(&KeyEncoder::encode(arch_of(&[TAG]), TAG, 1)).is_none());
    assert!(store.map.is_empty());
    assert!(reg.entity_archetype_id(1).is_none());
}

#[test]
fn cold_cache_commit_caches_the_whole_entity() {
    let mut store = Store::default();
    let mut tx = TxCore::new();
    store.run(&mut tx, |tx| tx.add(1, TAG, vec![1]));
    store.run(&mut tx, |tx| tx.add(1, HEALTH, vec![2]));
    store.commit(&tx, None);

    // the cache starts empty, as after reopening the store
    let mut reg = Registry::new();
    let mut tx = TxCore::new();
    store.run(&mut tx, |tx| tx.set(1, HEALTH, vec![3]));
    assert_eq!(tx.cache_reads(), vec![KeyEncoder::encode(arch_of(&[TAG, HEALTH]), TAG, 1)]);
    store.commit(&tx, Some(&mut reg));
    assert_eq!(reg.entity_archetype_id(1), Some(arch_of(&[TAG, HEALTH])));
    assert_eq!(reg.read_component(1, TAG), Some(&vec![1]));
    assert_eq!(reg.read_component(1, HEALTH), Some(&vec![3]));
}

#[test]
fn entity_with_missing_data_is_not_cached() {
    let mut store = Store::default();
    let mut tx = TxCore::new();
    store.run(&mut tx, |tx| tx.add(1, TAG, vec![1]));
    store.run(&mut tx, |tx| tx.add(1, HEALTH, vec![2]));
    store.commit(&tx, None);
    store.map.remove(&KeyEncoder::encode(arch_of(&[TAG, HEALTH]), TAG, 1));

    let mut reg = Registry::new();
    let mut tx = TxCore::new();
    store.run(&mut tx, |tx| tx.set(1, HEALTH, vec![3]));
    store.commit(&tx, Some(&mut reg));
    assert!(reg.entity_archetype_id(1).is_none());
    assert!(reg.read_component(1, HEALTH).is_none());
}

use std::collections::{HashMap, HashSet};
use thingdb::archetype::{Archetype, Registry};

// ── Archetype basics ────────────────────────────────────────────

#[test]
fn test_archetype_spawn_and_entity_count() {
    let mut arch = Archetype::new();
    assert_eq!(arch.entity_count(), 0);

    arch.spawn(1);
    assert_eq!(arch.entity_count(), 1);
    assert_eq!(arch.entities(), &[1]);

    arch.spawn(2);
    assert_eq!(arch.entity_count(), 2);
    assert_eq!(arch.entities(), &[1, 2]);
}

#[test]
fn test_archetype_spawn_idempotent() {
    let mut arch = Archetype::new();
    arch.register_component(10);
    arch.spawn(1);
    arch.set_component(1, 10, vec![1, 2, 3]);

    let slot = arch.spawn(1);
    assert_eq!(slot, 0);
    assert_eq!(arch.entity_count(), 1);
    assert_eq!(arch.get_component(1, 10).unwrap(), &vec![1, 2, 3]);
}

#[test]
fn test_archetype_despawn_swap_removes_correctly() {
    let mut arch = Archetype::new();
    arch.register_component(10);

    arch.spawn(1);
    arch.set_component(1, 10, vec![10]);
    arch.spawn(2);
    arch.set_component(2, 10, vec![20]);
    arch.spawn(3);
    arch.set_component(3, 10, vec![30]);

    // entity 1 sits in slot 0; the last entity (3, slot 2) moves into it
    let slot = arch.despawn(1).unwrap();
    assert_eq!(slot, 0);
    assert_eq!(arch.entity_count(), 2);
    assert_eq!(arch.entities(), &[3, 2]);

    assert_eq!(arch.get_component(3, 10).unwrap(), &vec![30]);
    assert_eq!(arch.get_component(2, 10).unwrap(), &vec![20]);
    assert!(arch.get_component(1, 10).is_none());
}

#[test]
fn test_archetype_despawn_last_entity() {
    let mut arch = Archetype::new();
    arch.register_component(10);
    arch.spawn(1);
    arch.set_component(1, 10, vec![10]);

    arch.despawn(1).unwrap();
    assert_eq!(arch.entity_count(), 0);
    assert!(arch.get_component(1, 10).is_none());
}

#[test]
fn test_archetype_despawn_nonexistent_returns_none() {
    let mut arch = Archetype::new();
    arch.spawn(1);
    assert!(arch.despawn(999).is_none());
    assert_eq!(arch.entity_count(), 1);
}

#[test]
fn test_archetype_register_component_after_spawn() {
    let mut arch = Archetype::new();
    arch.spawn(1);
    arch.spawn(2);

    // a column registered after entities exist gets a slot for each of them
    arch.register_component(10);
    assert_eq!(arch.component_storage(10).unwrap().len(), 2);
}

#[test]
fn test_archetype_set_and_get_component() {
    let mut arch = Archetype::new();
    arch.register_component(10);
    arch.spawn(1);
    arch.set_component(1, 10, vec![42]).unwrap();
    assert_eq!(arch.get_component(1, 10).unwrap(), &vec![42]);
}

#[test]
fn test_archetype_set_nonexistent_entity_returns_none() {
    let mut arch = Archetype::new();
    arch.register_component(10);
    assert!(arch.set_component(999, 10, vec![42]).is_none());
}

#[test]
fn test_archetype_get_nonexistent_component() {
    let mut arch = Archetype::new();
    arch.register_component(10);
    arch.spawn(1);
    assert!(arch.get_component(1, 999).is_none());
}

#[test]
fn test_archetype_iter_component() {
    let mut arch = Archetype::new();
    arch.register_component(10);
    arch.spawn(1);
    arch.set_component(1, 10, vec![10]);
    arch.spawn(2);
    arch.set_component(2, 10, vec![20]);

    let items: Vec<&Vec<u8>> = arch.iter_component(10);
    assert_eq!(items.len(), 2);
    assert_eq!(items[0], &vec![10]);
    assert_eq!(items[1], &vec![20]);
}

#[test]
fn test_archetype_iter_component_empty() {
    let arch = Archetype::new();
    assert_eq!(arch.iter_component(10).len(), 0);
}

#[test]
fn test_multiple_components_per_entity() {
    let mut arch = Archetype::new();
    arch.register_component(10);
    arch.register_component(20);
    arch.spawn(1);
    arch.set_component(1, 10, vec![100]);
    arch.set_component(1, 20, vec![200]);

    assert_eq!(arch.get_component(1, 10).unwrap(), &vec![100]);
    assert_eq!(arch.get_component(1, 20).unwrap(), &vec![200]);
}

#[test]
fn test_compute_archetype_id_deterministic() {
    let set1: HashSet<u64> = [10, 20, 30].into_iter().collect();
    let set2: HashSet<u64> = [30, 10, 20].into_iter().collect();
    let id1 = Registry::compute_archetype_id(&set1);
    let id2 = Registry::compute_archetype_id(&set2);
    assert_eq!(id1, id2);
}

#[test]
fn test_compute_archetype_id_different_sets_differ() {
    let set_a: HashSet<u64> = [10, 20].into_iter().collect();
    let set_b: HashSet<u64> = [10, 30].into_iter().collect();
    assert_ne!(
        Registry::compute_archetype_id(&set_a),
        Registry::compute_archetype_id(&set_b)
    );
}

#[test]
fn test_registry_set_entity_components_creates_archetype() {
    let mut reg = Registry::default();
    let mut components = HashMap::new();
    components.insert(10, vec![1, 2, 3]);
    components.insert(20, vec![4, 5, 6]);

    reg.set_entity_components(1, components);

    let arch_id = reg.entity_archetype_id(1).unwrap();
    let arch = reg.get_archetype(arch_id).unwrap();
    assert_eq!(arch.entity_count(), 1);
    assert_eq!(arch.get_component(1, 10).unwrap(), &vec![1, 2, 3]);
    assert_eq!(arch.get_component(1, 20).unwrap(), &vec![4, 5, 6]);
}

#[test]
fn test_registry_add_component_migrates_archetype() {
    let mut reg = Registry::default();

    let mut c1 = HashMap::new();
    c1.insert(10, vec![10]);
    reg.set_entity_components(1, c1);

    let arch_a = reg.entity_archetype_id(1).unwrap();

    let mut c2 = HashMap::new();
    c2.insert(10, vec![10]);
    c2.insert(20, vec![20]);
    reg.set_entity_components(1, c2);

    let arch_b = reg.entity_archetype_id(1).unwrap();
    assert_ne!(arch_a, arch_b);

    assert_eq!(reg.get_archetype(arch_a).unwrap().entity_count(), 0);
    assert_eq!(reg.get_archetype(arch_b).unwrap().entity_count(), 1);
    assert_eq!(reg.read_component(1, 10).unwrap(), &vec![10]);
    assert_eq!(reg.read_component(1, 20).unwrap(), &vec![20]);
}

#[test]
fn test_registry_remove_component_migrates_archetype() {
    let mut reg = Registry::default();

    let mut c1 = HashMap::new();
    c1.insert(10, vec![10]);
    c1.insert(20, vec![20]);
    reg.set_entity_components(1, c1);

    let arch_a = reg.entity_archetype_id(1).unwrap();

    let mut c2 = HashMap::new();
    c2.insert(10, vec![10]);
    reg.set_entity_components(1, c2);

    let arch_b = reg.entity_archetype_id(1).unwrap();
    assert_ne!(arch_a, arch_b);

    assert!(reg.read_component(1, 20).is_none());
    assert_eq!(reg.read_component(1, 10).unwrap(), &vec![10]);
}

#[test]
fn test_registry_remove_entity_cleans_up() {
    let mut reg = Registry::default();

    let mut c1 = HashMap::new();
    c1.insert(10, vec![10]);
    reg.set_entity_components(1, c1);

    let arch_id = reg.entity_archetype_id(1).unwrap();
    assert_eq!(reg.get_archetype(arch_id).unwrap().entity_count(), 1);

    reg.remove_entity(1);
    assert!(reg.entity_archetype_id(1).is_none());
    assert_eq!(reg.get_archetype(arch_id).unwrap().entity_count(), 0);
}

#[test]
fn test_registry_remove_entity_nonexistent_is_noop() {
    let mut reg = Registry::default();
    reg.remove_entity(999);
}

#[test]
fn test_registry_read_component_nonexistent() {
    let reg = Registry::default();
    assert!(reg.read_component(1, 10).is_none());
}

#[test]
fn test_find_matching_archetypes_basic() {
    let mut reg = Registry::default();

    let mut c1 = HashMap::new();
    c1.insert(10, vec![]);
    c1.insert(20, vec![]);
    reg.set_entity_components(1, c1);

    let mut c2 = HashMap::new();
    c2.insert(10, vec![]);
    c2.insert(30, vec![]);
    reg.set_entity_components(2, c2);

    let matching = reg.find_matching_archetypes(10, &[], &[]);
    assert_eq!(matching.len(), 2);

    let matching = reg.find_matching_archetypes(10, &[20], &[]);
    assert_eq!(matching.len(), 1);

    let matching = reg.find_matching_archetypes(10, &[], &[30]);
    assert_eq!(matching.len(), 1);
}

#[test]
fn test_find_matching_archetypes_no_match() {
    let mut reg = Registry::default();
    let mut c = HashMap::new();
    c.insert(10, vec![]);
    reg.set_entity_components(1, c);

    let matching = reg.find_matching_archetypes(999, &[], &[]);
    assert!(matching.is_empty());

    let matching = reg.find_matching_archetypes(10, &[999], &[]);
    assert!(matching.is_empty());
}

#[test]
fn test_find_matching_archetypes_with_and_without() {
    let mut reg = Registry::default();

    let mut c1 = HashMap::new();
    c1.insert(10, vec![]);
    c1.insert(20, vec![]);
    reg.set_entity_components(1, c1);

    let mut c2 = HashMap::new();
    c2.insert(10, vec![]);
    c2.insert(20, vec![]);
    c2.insert(30, vec![]);
    reg.set_entity_components(2, c2);

    let matching = reg.find_matching_archetypes(10, &[20], &[30]);
    assert_eq!(matching.len(), 1);
}

#[test]
fn test_registry_multiple_entities_same_archetype() {
    let mut reg = Registry::default();

    let mut c = HashMap::new();
    c.insert(10, vec![10]);
    c.insert(20, vec![20]);
    reg.set_entity_components(1, c);

    let mut c2 = HashMap::new();
    c2.insert(10, vec![100]);
    c2.insert(20, vec![200]);
    reg.set_entity_components(2, c2);

    let arch_id = reg.entity_archetype_id(1).unwrap();
    assert_eq!(reg.entity_archetype_id(2).unwrap(), arch_id);

    let arch = reg.get_archetype(arch_id).unwrap();
    assert_eq!(arch.entity_count(), 2);

    let values: Vec<&Vec<u8>> = arch.iter_component(10);
    assert_eq!(values.len(), 2);
    assert!(values.contains(&&vec![10]));
    assert!(values.contains(&&vec![100]));
}

#[test]
fn test_registry_update_in_place_same_archetype() {
    let mut reg = Registry::default();

    let mut c = HashMap::new();
    c.insert(10, vec![10]);
    reg.set_entity_components(1, c);

    let arch_a = reg.entity_archetype_id(1).unwrap();

    let mut c2 = HashMap::new();
    c2.insert(10, b"updated".to_vec());
    reg.set_entity_components(1, c2);

    let arch_b = reg.entity_archetype_id(1).unwrap();
    assert_eq!(arch_a, arch_b);
    assert_eq!(reg.read_component(1, 10).unwrap(), &b"updated".to_vec());
}

#[test]
fn test_registry_multiple_entities_different_archetypes() {
    let mut reg = Registry::default();

    let mut c1 = HashMap::new();
    c1.insert(10, vec![10]);
    reg.set_entity_components(1, c1);

    let mut c2 = HashMap::new();
    c2.insert(20, vec![20]);
    reg.set_entity_components(2, c2);

    assert_ne!(
        reg.entity_archetype_id(1).unwrap(),
        reg.entity_archetype_id(2).unwrap()
    );
    assert_eq!(
        reg.get_archetype(reg.entity_archetype_id(1).unwrap())
            .unwrap()
            .entity_count(),
        1
    );
    assert_eq!(
        reg.get_archetype(reg.entity_archetype_id(2).unwrap())
            .unwrap()
            .entity_count(),
        1
    );
}

#[test]
fn iter_component_follows_entity_order() {
    let mut arch = Archetype::new();
    arch.register_component(10);
    for t in 1..=4u128 {
        arch.spawn(t);
    }
    arch.set_component(1, 10, vec![1]);
    arch.set_component(3, 10, vec![3]);
    arch.set_component(4, 10, vec![4]);
    arch.despawn(1);
    let reads: Vec<&Vec<u8>> = arch
        .entities()
        .iter()
        .filter_map(|&e| arch.get_component(e, 10))
        .collect();
    assert_eq!(arch.iter_component(10), reads);
    assert_eq!(reads, vec![&vec![4], &vec![3]]);
}

#[test]
fn archetype_count_never_decreases() {
    let mut reg = Registry::default();
    let mut c = HashMap::new();
    c.insert(10, vec![1]);
    reg.set_entity_components(1, c);
    assert_eq!(reg.archetype_count(), 1);
    let mut c2 = HashMap::new();
    c2.insert(20, vec![2]);
    reg.set_entity_components(1, c2);
    assert_eq!(reg.archetype_count(), 2);
    reg.remove_entity(1);
    assert_eq!(reg.archetype_count(), 2);
    reg.create_archetype(&[30, 40]);
    assert_eq!(reg.archetype_count(), 3);
    reg.create_archetype(&[40, 30]);
    assert_eq!(reg.archetype_count(), 3);
}

#[test]
fn attributes_outside_the_set_read_nothing() {
    let mut reg = Registry::default();
    let mut c = HashMap::new();
    c.insert(10, vec![1]);
    c.insert(20, vec![2]);
    reg.set_entity_components(1, c);
    let mut c2 = HashMap::new();
    c2.insert(10, vec![3]);
    reg.set_entity_components(1, c2);
    assert!(reg.read_component(1, 20).is_none());
    assert_eq!(reg.read_component(1, 10), Some(&vec![3]));
}

use std::collections::HashMap;
use thingdb::archetype::Registry;
use thingdb::query::{batched_data_keys, point_lookup_key, use_batched_fetch, QuerySpec};
use thingdb::storage::{u64_value, KeyEncoder};
use thingdb::{edge_type_hash, hash_name, Attribute, Edge, Entity};

const PLAYER: u64 = 1;
const ENEMY: u64 = 2;
const POSITION: u64 = 3;
const HEALTH: u64 = 4;

fn populated() -> Registry {
    let mut reg = Registry::default();
    let mut p1 = HashMap::new();
    p1.insert(PLAYER, vec![]);
    p1.insert(POSITION, vec![1]);
    p1.insert(HEALTH, vec![100]);
    reg.set_entity_components(1, p1);
    let mut p2 = HashMap::new();
    p2.insert(PLAYER, vec![]);
    p2.insert(POSITION, vec![2]);
    reg.set_entity_components(2, p2);
    let mut e1 = HashMap::new();
    e1.insert(ENEMY, vec![]);
    e1.insert(HEALTH, vec![50]);
    reg.set_entity_components(3, e1);
    reg
}

#[test]
fn cached_results_cold_cache_is_none() {
    let reg = Registry::default();
    assert!(QuerySpec::new(HEALTH).cached_results(&reg).is_none());
}

#[test]
fn cached_results_single_component() {
    let reg = populated();
    let mut got: Vec<Vec<u8>> = QuerySpec::new(HEALTH)
        .cached_results(&reg)
        .unwrap()
        .into_iter()
        .cloned()
        .collect();
    got.sort();
    assert_eq!(got, vec![vec![50], vec![100]]);
}

#[test]
fn cached_results_with_and_without() {
    let reg = populated();
    let with: Vec<Vec<u8>> = QuerySpec::new(HEALTH)
        .with(PLAYER)
        .cached_results(&reg)
        .unwrap()
        .into_iter()
        .cloned()
        .collect();
    assert_eq!(with, vec![vec![100]]);

    let without: Vec<Vec<u8>> = QuerySpec::new(POSITION)
        .without(HEALTH)
        .cached_results(&reg)
        .unwrap()
        .into_iter()
        .cloned()
        .collect();
    assert_eq!(without, vec![vec![2]]);

    let nothing = QuerySpec::new(HEALTH).with(999).cached_results(&reg).unwrap();
    assert!(nothing.is_empty());
}

#[test]
fn select_candidates_sorted_and_filtered() {
    let q = QuerySpec::new(HEALTH).with(PLAYER).without(ENEMY);
    let output = vec![5u128, 3, 1, 3];
    let with = vec![vec![1u128, 3, 5]];
    let without = vec![vec![5u128]];
    assert_eq!(q.select_candidates(&output, &with, &without), vec![1, 3]);
    assert!(q.select_candidates(&Vec::new(), &with, &without).is_empty());
    let plain = QuerySpec::new(HEALTH);
    assert_eq!(plain.select_candidates(&vec![9, 2, 9], &Vec::new(), &Vec::new()), vec![2, 9]);
}

#[test]
fn fetch_strategy_threshold() {
    assert!(!use_batched_fetch(499));
    assert!(use_batched_fetch(500));
    assert!(!use_batched_fetch(0));
}

#[test]
fn point_lookup_key_uses_archetype_record() {
    let rec = u64_value(77);
    assert_eq!(point_lookup_key(HEALTH, 9, Some(&rec)), Some(KeyEncoder::encode(77, HEALTH, 9)));
    assert_eq!(point_lookup_key(HEALTH, 9, None), None);
    let short = vec![1u8, 2];
    assert_eq!(point_lookup_key(HEALTH, 9, Some(&short)), Some(KeyEncoder::encode(0, HEALTH, 9)));
}

#[test]
fn batched_keys_skip_missing_and_short_records() {
    let ids = vec![1u128, 2, 3, 4];
    let records = vec![Some(u64_value(10)), None, Some(vec![1, 2]), Some(u64_value(20))];
    assert_eq!(
        batched_data_keys(HEALTH, &ids, &records),
        vec![KeyEncoder::encode(10, HEALTH, 1), KeyEncoder::encode(20, HEALTH, 4)]
    );
}

struct Tag;
impl Attribute for Tag {
    const NAME: &'static str = "Tag";
}

struct Knows;
impl Edge for Knows {
    const NAME: &'static str = "knows";
}

#[test]
fn names_hash_to_their_identifiers() {
    assert_eq!(Tag.hash_id(), hash_name("Tag"));
    assert_eq!(Knows.hash_id(), hash_name("knows"));
    assert_eq!(edge_type_hash::<Knows>(), hash_name("knows"));
    assert_ne!(edge_type_hash::<Knows>(), hash_name("Tag"));
}

struct Named(String);
struct Level(u32);

struct Hero {
    name: String,
    level: u32,
}

impl Entity for Hero {
    type Attributes = (Named, Level);

    fn from_attributes(attrs: Self::Attributes) -> Self {
        let (name, level) = attrs;
        Hero { name: name.0, level: level.0 }
    }

    fn into_attributes(self) -> Self::Attributes {
        (Named(self.name), Level(self.level))
    }
}

#[test]
fn entity_round_trips_through_its_attributes() {
    let hero = Hero { name: "Ada".into(), level: 10 };
    let back = Hero::from_attributes(hero.into_attributes());
    assert_eq!(back.name, "Ada");
    assert_eq!(back.level, 10);
}

#[test]
fn batched_keys_equal_point_lookups_on_full_records() {
    let ids = vec![3u128, 8, 21];
    let records = vec![Some(u64_value(5)), Some(u64_value(6)), Some(u64_value(7))];
    let point: Vec<Vec<u8>> = ids
        .iter()
        .zip(&records)
        .map(|(&id, r)| point_lookup_key(HEALTH, id, r.as_ref()).unwrap())
        .collect();
    assert_eq!(batched_data_keys(HEALTH, &ids, &records), point);
}

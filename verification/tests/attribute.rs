use std::collections::hash_map::DefaultHasher;
use std::hash::{Hash, Hasher};
use thingdb::hash_name;

#[test]
fn hash_name_deterministic() {
    let a = hash_name("Player");
    let b = hash_name("Player");
    assert_eq!(a, b);
}

#[test]
fn hash_name_unique_per_name() {
    let names = ["Player", "Enemy", "Position", "Health", "VipStatus"];
    let mut hashes: Vec<u64> = names.iter().map(|n| hash_name(n)).collect();
    hashes.sort();
    hashes.dedup();
    assert_eq!(hashes.len(), names.len());
}

#[test]
fn hash_name_empty_string() {
    let h = hash_name("");
    let h2 = hash_name("");
    assert_eq!(h, h2);
}

#[test]
fn hash_name_case_sensitive() {
    let a = hash_name("Player");
    let b = hash_name("player");
    assert_ne!(a, b);
}

#[test]
fn hash_name_matches_std_str_hash() {
    for name in ["Player", "", "Health", "ünïcödé"] {
        let mut hasher = DefaultHasher::new();
        name.hash(&mut hasher);
        assert_eq!(hash_name(name), hasher.finish());
    }
}

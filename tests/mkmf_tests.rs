use std::collections::BTreeMap;

use submap::mkmf::MapKeysMatchFormula as _;

#[test]
fn test_keys_matches_formula_eq() {
    let mut h: BTreeMap<String, ()> = BTreeMap::new();
    h.insert("hello".to_string(), ());
    h.insert("world".to_string(), ());
    h.insert("1".to_string(), ());
    h.insert("2".to_string(), ());
    h.insert("3".to_string(), ());
    h.insert("4".to_string(), ());
    h.insert("5".to_string(), ());
    assert_eq!(
        h.keys_match_formula("eq(1)").collect::<Vec<&String>>(),
        ["1"]
    );
}

#[test]
fn test_keys_matches_formula_ne() {
    let mut h: BTreeMap<String, ()> = BTreeMap::new();
    h.insert("hello".to_string(), ());
    h.insert("world".to_string(), ());
    h.insert("1".to_string(), ());
    h.insert("2".to_string(), ());
    h.insert("3".to_string(), ());
    h.insert("4".to_string(), ());
    h.insert("5".to_string(), ());
    assert_eq!(
        h.keys_match_formula("ne(1)").collect::<Vec<&String>>(),
        ["2", "3", "4", "5", "hello", "world"]
    );
}

#[test]
fn test_keys_matches_formula_gt() {
    let mut h: BTreeMap<String, ()> = BTreeMap::new();
    h.insert("hello".to_string(), ());
    h.insert("world".to_string(), ());
    h.insert("1".to_string(), ());
    h.insert("2".to_string(), ());
    h.insert("3".to_string(), ());
    h.insert("4".to_string(), ());
    h.insert("5".to_string(), ());
    assert_eq!(
        h.keys_match_formula("gt(3)").collect::<Vec<&String>>(),
        ["4", "5"]
    );
}

#[test]
fn test_keys_matches_formula_gt_prefix() {
    let mut h: BTreeMap<String, ()> = BTreeMap::new();
    h.insert("hello".to_string(), ());
    h.insert("world".to_string(), ());
    h.insert("a1".to_string(), ());
    h.insert("a2".to_string(), ());
    h.insert("a3".to_string(), ());
    h.insert("a4".to_string(), ());
    h.insert("a5".to_string(), ());
    assert_eq!(
        h.keys_match_formula("a#gt(3)").collect::<Vec<&String>>(),
        ["a4", "a5"]
    );
}

#[test]
fn test_keys_matches_formula_lt() {
    let mut h: BTreeMap<String, ()> = BTreeMap::new();
    h.insert("hello".to_string(), ());
    h.insert("world".to_string(), ());
    h.insert("1".to_string(), ());
    h.insert("2".to_string(), ());
    h.insert("3".to_string(), ());
    h.insert("4".to_string(), ());
    h.insert("5".to_string(), ());
    assert_eq!(
        h.keys_match_formula("lt(3)").collect::<Vec<&String>>(),
        ["1", "2"]
    );
}

#[test]
fn test_keys_matches_formula_ge() {
    let mut h: BTreeMap<String, ()> = BTreeMap::new();
    h.insert("hello".to_string(), ());
    h.insert("world".to_string(), ());
    h.insert("1".to_string(), ());
    h.insert("2".to_string(), ());
    h.insert("3".to_string(), ());
    h.insert("4".to_string(), ());
    h.insert("5".to_string(), ());
    assert_eq!(
        h.keys_match_formula("ge(3)").collect::<Vec<&String>>(),
        ["3", "4", "5"]
    );
}

#[test]
fn test_keys_matches_formula_le() {
    let mut h: BTreeMap<String, ()> = BTreeMap::new();
    h.insert("hello".to_string(), ());
    h.insert("world".to_string(), ());
    h.insert("1".to_string(), ());
    h.insert("2".to_string(), ());
    h.insert("3".to_string(), ());
    h.insert("4".to_string(), ());
    h.insert("5".to_string(), ());
    assert_eq!(
        h.keys_match_formula("le(3)").collect::<Vec<&String>>(),
        ["1", "2", "3"]
    );
}

#[test]
fn test_keys_matches_formula_ri() {
    let mut h: BTreeMap<String, ()> = BTreeMap::new();
    h.insert("hello".to_string(), ());
    h.insert("world".to_string(), ());
    h.insert("1".to_string(), ());
    h.insert("2".to_string(), ());
    h.insert("3".to_string(), ());
    h.insert("4".to_string(), ());
    h.insert("5".to_string(), ());
    assert_eq!(
        h.keys_match_formula("ri(2..4)").collect::<Vec<&String>>(),
        ["2", "3", "4"]
    );
}

#[test]
fn test_keys_matches_formula_ri_prefix() {
    let mut h: BTreeMap<String, ()> = BTreeMap::new();
    h.insert("hello".to_string(), ());
    h.insert("world".to_string(), ());
    h.insert("a1".to_string(), ());
    h.insert("a2".to_string(), ());
    h.insert("a3".to_string(), ());
    h.insert("a4".to_string(), ());
    h.insert("a5".to_string(), ());
    assert_eq!(
        h.keys_match_formula("a#ri(2..4)").collect::<Vec<&String>>(),
        ["a2", "a3", "a4"]
    );
}

#[test]
fn test_keys_matches_formula_invalid() {
    let mut h: BTreeMap<String, ()> = BTreeMap::new();
    h.insert("hello".to_string(), ());
    h.insert("world".to_string(), ());
    h.insert("1".to_string(), ());
    h.insert("2".to_string(), ());
    h.insert("3".to_string(), ());
    h.insert("4".to_string(), ());
    h.insert("5".to_string(), ());
    assert!(h
        .keys_match_formula("a#xxx(2..4)")
        .collect::<Vec<&String>>()
        .is_empty());
}

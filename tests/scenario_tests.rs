use std::collections::{BTreeMap, HashMap};

use submap::mkmf::MapKeysMatchFormula as _;
use submap::{AclMap, BroadcastMap, Error, Formula, SubMap};

fn mqtt() -> SubMap<String> {
    SubMap::new().match_any("+").wildcard("#")
}

fn sorted(mut v: Vec<String>) -> Vec<String> {
    v.sort();
    v
}

#[test]
fn scenario_placeholder_and_wildcard() {
    let mut m = mqtt();
    let c2 = "c2".to_owned();
    let c4 = "c4".to_owned();
    assert!(m.register_client(&c2));
    assert!(m.register_client(&c4));
    assert!(m.subscribe("unit/+/test2", &c2));
    assert!(m.subscribe("unit/#", &c4));
    assert_eq!(sorted(m.get_subscribers("unit/tests/test2")), vec![c2.clone(), c4.clone()]);
    assert_eq!(m.get_subscribers("unit/tests"), vec![c4.clone()]);
}

#[test]
fn scenario_wildcard_needs_a_segment() {
    let mut m = mqtt();
    let c1 = "c1".to_owned();
    let c2 = "c2".to_owned();
    m.register_client(&c1);
    m.register_client(&c2);
    m.subscribe("unit/tests/#", &c1);
    m.subscribe("unit/+/#", &c2);
    assert!(m.get_subscribers("unit").is_empty());
    assert!(m.get_subscribers("unit/tests").is_empty());
    assert_eq!(sorted(m.get_subscribers("unit/tests/xxx")), vec![c1.clone(), c2.clone()]);
    assert_eq!(sorted(m.get_subscribers("unit/tests/xxx/yyy")), vec![c1.clone(), c2.clone()]);
}

#[test]
fn scenario_formula_prefix() {
    let mut m: SubMap<String> = SubMap::new().formula_prefix("!");
    let c1 = "c1".to_owned();
    m.register_client(&c1);
    m.subscribe("!ge(2)/xxx", &c1);
    assert!(m.get_subscribers("1/xxx").is_empty());
    assert_eq!(m.get_subscribers("2/xxx"), vec![c1.clone()]);
    assert_eq!(m.get_subscribers("3/xxx"), vec![c1.clone()]);
}

#[test]
fn scenario_regex_prefix() {
    let mut m: SubMap<String> = SubMap::new().regex_prefix("~");
    let c1 = "c1".to_owned();
    let c2 = "c2".to_owned();
    m.register_client(&c1);
    m.register_client(&c2);
    m.subscribe("~^test\\d+$/xxx", &c1);
    m.subscribe("~^test\\d+$/xxx", &c2);
    assert_eq!(sorted(m.get_subscribers("test1/xxx")), vec![c1.clone(), c2.clone()]);
    assert!(m.get_subscribers("test3333a/xxx").is_empty());
    assert!(m.unsubscribe("~^test\\d+$/xxx", &c1));
    assert_eq!(m.get_subscribers("test1/xxx"), vec![c2.clone()]);
}

#[test]
fn scenario_broadcast_masks() {
    let mut b: BroadcastMap<u32> = BroadcastMap::new().separator('/');
    b.register_client("this/is/a", &1);
    b.register_client("this/is/b", &2);
    b.register_client("this/is", &3);
    b.register_client("this", &4);
    b.register_client("that/is/a", &5);
    let mut r = b.get_clients_by_mask("this/*");
    r.sort();
    assert_eq!(r, vec![1, 2, 3]);
    assert_eq!(b.get_clients_by_mask("this/?/a"), vec![1]);
    let mut r = b.get_clients_by_mask("?/is/a");
    r.sort();
    assert_eq!(r, vec![1, 5]);
    let mut r = b.get_clients_by_mask("*");
    r.sort();
    assert_eq!(r, vec![1, 2, 3, 4, 5]);
}

#[test]
fn scenario_acl() {
    let mut acl = AclMap::new();
    acl.insert("admin/*");
    assert!(acl.matches("admin/users"));
    assert!(!acl.matches("guest/users"));
    assert_eq!(acl.list(), vec!["admin/*"]);
    assert!(!acl.is_empty());
}

#[test]
fn empty_topic_is_one_empty_segment() {
    let mut m: SubMap<u32> = SubMap::new();
    m.register_client(&1);
    m.subscribe("", &1);
    assert_eq!(m.get_subscribers(""), vec![1]);
    assert!(m.get_subscribers("a").is_empty());
    assert!(m.get_subscribers("/").is_empty());
}

#[test]
fn trailing_wildcard_matches_deeper_only() {
    let mut m: SubMap<u32> = SubMap::new();
    m.register_client(&1);
    m.subscribe("a/*", &1);
    assert!(m.get_subscribers("a").is_empty());
    assert_eq!(m.get_subscribers("a/b"), vec![1]);
    assert_eq!(m.get_subscribers("a/b/c"), vec![1]);
    assert!(m.get_subscribers("b/c").is_empty());
}

#[test]
fn lone_wildcard_matches_everything() {
    let mut m: SubMap<u32> = SubMap::new();
    m.register_client(&7);
    m.subscribe("*", &7);
    assert_eq!(m.get_subscribers(""), vec![7]);
    assert_eq!(m.get_subscribers("a"), vec![7]);
    assert_eq!(m.get_subscribers("a/b/c"), vec![7]);
    assert!(m.is_subscribed(""));
}

#[test]
fn placeholder_needs_a_segment() {
    let mut m: SubMap<u32> = SubMap::new();
    m.register_client(&1);
    m.subscribe("?/?", &1);
    assert_eq!(m.get_subscribers("a/b"), vec![1]);
    assert!(m.get_subscribers("a").is_empty());
    assert!(m.get_subscribers("a/b/c").is_empty());
    assert!(m.is_subscribed("x/y"));
    assert!(!m.is_subscribed("x"));
}

#[test]
fn reverse_index_lists_patterns() {
    let mut m = mqtt();
    let c = "c".to_owned();
    m.register_client(&c);
    m.subscribe("a/b", &c);
    m.subscribe("a/+", &c);
    let mut t = m.list_topics(&c);
    t.sort();
    assert_eq!(t, vec!["a/+", "a/b"]);
    assert_eq!(m.get_subscribers("a/b"), vec![c.clone()]);
    assert!(m.list_topics(&"other".to_owned()).is_empty());
}

#[test]
fn trie_pruned_after_all_leave() {
    let mut m = mqtt();
    let a = "a".to_owned();
    let b = "b".to_owned();
    m.register_client(&a);
    m.register_client(&b);
    m.subscribe("x/+/y/#", &a);
    m.subscribe("x/z", &b);
    m.unsubscribe("x/z", &b);
    assert!(!m.trie_is_empty());
    m.unregister_client(&a);
    m.unregister_client(&b);
    assert!(m.trie_is_empty());
    assert!(m.is_empty());
}

#[test]
fn count_is_sum_of_patterns() {
    let mut m = mqtt();
    let a = "a".to_owned();
    let b = "b".to_owned();
    m.register_client(&a);
    m.register_client(&b);
    m.subscribe("1", &a);
    m.subscribe("2", &a);
    m.subscribe("1", &b);
    assert_eq!(m.subscription_count(), 3);
    assert_eq!(m.client_count(), 2);
    assert!(m.unsubscribe_all(&a));
    assert_eq!(m.subscription_count(), 1);
    assert!(m.list_topics(&a).is_empty());
    assert!(m.unregister_client(&b));
    assert_eq!(m.subscription_count(), 0);
    assert_eq!(m.list_clients(), vec![a.clone()]);
}

#[test]
fn subscribe_twice_is_idempotent() {
    let mut m = mqtt();
    let a = "a".to_owned();
    m.register_client(&a);
    assert!(m.subscribe("t/+", &a));
    assert!(m.subscribe("t/+", &a));
    assert_eq!(m.subscription_count(), 1);
    assert_eq!(m.list_topics(&a), vec!["t/+"]);
}

#[test]
fn subscribe_then_unsubscribe_is_no_op() {
    let mut m = mqtt();
    let a = "a".to_owned();
    m.register_client(&a);
    m.subscribe("t/1", &a);
    assert!(m.subscribe("t/+", &a));
    assert!(m.unsubscribe("t/+", &a));
    assert_eq!(m.subscription_count(), 1);
    assert_eq!(m.get_subscribers("t/1"), vec![a.clone()]);
    assert!(m.get_subscribers("t/2").is_empty());
}

#[test]
fn independent_subscriptions_commute() {
    let a = "a".to_owned();
    let b = "b".to_owned();
    let mut m1 = mqtt();
    m1.register_client(&a);
    m1.register_client(&b);
    let mut m2 = mqtt();
    m2.register_client(&a);
    m2.register_client(&b);
    m1.subscribe("x/+", &a);
    m1.subscribe("x/#", &b);
    m2.subscribe("x/#", &b);
    m2.subscribe("x/+", &a);
    for topic in ["x", "x/1", "x/1/2"] {
        assert_eq!(sorted(m1.get_subscribers(topic)), sorted(m2.get_subscribers(topic)));
    }
    assert_eq!(m1.subscription_count(), m2.subscription_count());
}

#[test]
fn unsubscribe_keeps_rule_of_other_pattern() {
    let mut m: SubMap<u32> = SubMap::new();
    m.register_client(&1);
    m.subscribe("a/*/x", &1);
    m.subscribe("a/*", &1);
    assert!(m.unsubscribe("a/*", &1));
    assert_eq!(m.get_subscribers("a/b"), vec![1]);
    assert!(m.unsubscribe("a/*/x", &1));
    assert!(m.get_subscribers("a/b").is_empty());
    assert!(m.trie_is_empty());
}

#[test]
fn unregistered_clients_are_refused() {
    let mut m: SubMap<u32> = SubMap::new();
    assert!(!m.subscribe("a", &1));
    assert!(!m.unsubscribe("a", &1));
    assert!(!m.unsubscribe_all(&1));
    assert!(!m.unregister_client(&1));
    assert!(m.register_client(&1));
    assert!(!m.register_client(&1));
    assert_eq!(m.client_count(), 1);
    assert_eq!(m.subscription_count(), 0);
}

#[test]
fn bad_formula_pattern_matches_nothing() {
    let mut m: SubMap<u32> = SubMap::new().formula_prefix("!");
    m.register_client(&1);
    assert!(m.subscribe("!xx(1)/a", &1));
    assert_eq!(m.subscription_count(), 1);
    assert!(m.get_subscribers("1/a").is_empty());
    assert!(m.trie_is_empty());
}

#[test]
fn bad_regex_pattern_matches_nothing() {
    let mut m: SubMap<u32> = SubMap::new().regex_prefix("~");
    m.register_client(&1);
    assert!(m.subscribe("~(/a", &1));
    assert!(m.get_subscribers("(/a").is_empty());
    assert!(m.trie_is_empty());
    assert!(m.subscribe("~^a.c$", &1));
    assert_eq!(m.get_subscribers("abc"), vec![1]);
    assert!(m.get_subscribers("abcd").is_empty());
}

#[test]
fn formula_on_publish_side() {
    let mut m: SubMap<u32> = SubMap::new().formula_prefix("!");
    m.register_client(&1);
    m.register_client(&2);
    m.subscribe("5/x", &1);
    m.subscribe("2/x", &2);
    assert_eq!(m.get_subscribers("!ge(3)/x"), vec![1]);
    assert!(m.get_subscribers("!bad/x").is_empty());
    assert!(m.is_subscribed("!le(2)/x"));
}

#[test]
fn regex_on_publish_side() {
    let mut m: SubMap<u32> = SubMap::new().regex_prefix("~");
    m.register_client(&1);
    m.subscribe("abc/x", &1);
    assert_eq!(m.get_subscribers("~^a/x"), vec![1]);
    assert!(m.get_subscribers("~^b/x").is_empty());
}

#[test]
fn separator_is_honoured() {
    let mut m: SubMap<u32> = SubMap::new().separator('.').wildcard_multiple(&["#", ">"]).match_any_multiple(&["+", "*"]);
    m.register_client(&1);
    m.subscribe("a.*.c", &1);
    assert_eq!(m.get_subscribers("a.b.c"), vec![1]);
    assert!(m.get_subscribers("a/b/c").is_empty());
    m.unsubscribe("a.*.c", &1);
    m.subscribe("a.>", &1);
    assert_eq!(m.get_subscribers("a.z"), vec![1]);
    assert!(m.trie_is_empty() == false);
}

#[test]
fn formula_parse_results() {
    let f = Formula::parse("ge(2)").unwrap();
    assert!(f.matches("2"));
    assert!(f.matches("+3"));
    assert!(!f.matches("1"));
    assert!(!f.matches("x"));
    let f: Formula = "ne(1)".parse().unwrap();
    assert!(f.matches("abc"));
    assert!(!f.matches("1"));
    let f = Formula::parse("a#gt(3)").unwrap();
    assert!(f.matches("a4"));
    assert!(!f.matches("4"));
    assert!(!f.matches("a3"));
    let f = Formula::parse("ri(-2..4)").unwrap();
    assert!(f.matches("-2"));
    assert!(f.matches("4"));
    assert!(!f.matches("5"));
    let f = Formula::parse("eq(-9223372036854775808)").unwrap();
    assert!(f.matches("-9223372036854775808"));
    assert!(!f.matches("9223372036854775808"));
    let f = Formula::parse("lt(0)").unwrap();
    assert!(f.matches("-1"));
    let f = Formula::parse("le(0)").unwrap();
    assert!(f.matches("0"));
}

#[test]
fn formula_parse_errors() {
    for bad in ["xx", "eq(1", "eq", "foo(1)", "eq(x)", "ri(5)", "ri(1..)", "eq(9223372036854775808)", "eq()", "eq(-)"] {
        match Formula::parse(bad) {
            Err(Error::FormulaParseError(m)) => assert_eq!(m, bad),
            Ok(_) => panic!("parsed {}", bad),
        }
    }
}

#[test]
fn broadcast_default_separator_and_unregister() {
    let mut b: BroadcastMap<u64> = BroadcastMap::new();
    b.register_client("a.b", &1);
    b.register_client("a.b", &1);
    b.register_client("a.c", &2);
    assert_eq!(b.get_clients_by_mask("a.b"), vec![1]);
    assert_eq!(b.get_clients_by_mask("a.?").len(), 2);
    b.unregister_client("a.b", &1);
    assert!(b.get_clients_by_mask("a.b").is_empty());
    assert!(!b.is_empty());
    b.unregister_client("a.c", &2);
    assert!(b.is_empty());
}

#[test]
fn values_and_hash_maps_match_formula() {
    let mut b: BTreeMap<String, u32> = BTreeMap::new();
    b.insert("1".to_string(), 10);
    b.insert("2".to_string(), 20);
    b.insert("3".to_string(), 30);
    b.insert("x".to_string(), 0);
    assert_eq!(b.values_match_key_formula("ge(2)").collect::<Vec<&u32>>(), vec![&20, &30]);
    assert_eq!(b.values_match_key_formula("ne(2)").collect::<Vec<&u32>>(), vec![&10, &30, &0]);
    assert!(b.values_match_key_formula("zz(2)").next().is_none());
    let mut h: HashMap<String, u32> = HashMap::new();
    h.insert("1".to_string(), 10);
    h.insert("2".to_string(), 20);
    h.insert("y".to_string(), 0);
    assert_eq!(h.keys_match_formula("lt(2)").collect::<Vec<&String>>(), vec!["1"]);
    let mut v = h.values_match_key_formula("ri(1..2)").copied().collect::<Vec<u32>>();
    v.sort();
    assert_eq!(v, vec![10, 20]);
    let keys: Vec<String> = vec!["5".to_string(), "a".to_string(), "7".to_string()];
    let refs: Vec<&String> = keys.iter().collect();
    assert_eq!(submap::mkmf::keys_match_formula(&refs, "gt(5)"), vec![&keys[2]]);
}

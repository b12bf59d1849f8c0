use submap::SubMap;

#[test]
fn test_sub() {
    let mut smap: SubMap<String> = SubMap::new().match_any("+").wildcard("#");
    let client1 = "test1".to_owned();
    assert!(smap.register_client(&client1));
    assert!(smap.subscribe("unit/tests/test1", &client1));
    assert!(smap.subscribe("unit/tests/test2", &client1));
    assert!(smap.subscribe("unit/tests/test3", &client1));
    assert!(smap.unregister_client(&client1));
    let client2 = "test2".to_owned();
    assert!(smap.register_client(&client2));
    assert!(smap.subscribe("unit/+/test2", &client2));
    assert!(smap.subscribe("unit/zzz/test2", &client2));
    assert!(smap.unsubscribe("unit/zzz/test2", &client2));
    let client3 = "test3".to_owned();
    assert!(smap.register_client(&client3));
    assert!(smap.subscribe("unit/+/+/+", &client3));
    assert!(smap.unsubscribe("unit/+/+/+", &client3));
    let client4 = "test4".to_owned();
    assert!(smap.register_client(&client4));
    assert!(smap.subscribe("unit/#", &client4));
    let subs = smap.get_subscribers("unit/tests/test2");
    assert_eq!(subs.len(), 2);
    assert!(subs.contains(&client2));
    assert!(subs.contains(&client4));
    let subs = smap.get_subscribers("unit/tests");
    assert_eq!(subs.len(), 1);
    assert!(smap.subscribe("#", &client4));
    let subs = smap.get_subscribers("unit");
    assert_eq!(subs.len(), 1);
    assert!(subs.contains(&client4));
    assert!(smap.unsubscribe("#", &client4));
    let subs = smap.get_subscribers("unit");
    assert_eq!(subs.len(), 0);
    smap.unregister_client(&client1);
    smap.unregister_client(&client2);
    smap.unregister_client(&client3);
    smap.unregister_client(&client4);
    assert!(smap.register_client(&client1));
    assert!(smap.register_client(&client2));
    assert!(smap.subscribe("unit/tests/#", &client1));
    assert!(smap.subscribe("unit/+/#", &client2));
    let subs = smap.get_subscribers("unit");
    assert_eq!(subs.len(), 0);
    let subs = smap.get_subscribers("unit/tests");
    assert_eq!(subs.len(), 0);
    let subs = smap.get_subscribers("unit/tests/xxx");
    assert!(subs.contains(&client1));
    assert!(subs.contains(&client2));
    assert_eq!(subs.len(), 2);
    let subs = smap.get_subscribers("unit/tests/xxx/yyy");
    assert_eq!(subs.len(), 2);
    assert!(subs.contains(&client1));
    assert!(subs.contains(&client2));
    assert!(smap.subscribe("unit/#", &client1));
    let subs = smap.get_subscribers("unit");
    assert_eq!(subs.len(), 0);
    let subs = smap.get_subscribers("unit/tests");
    assert_eq!(subs.len(), 1);
    assert!(smap.subscribe("#", &client1));
    let subs = smap.get_subscribers("unit");
    assert_eq!(subs.len(), 1);
    let subs = smap.get_subscribers("unit/tests");
    assert_eq!(subs.len(), 1);
    smap.unregister_client(&client1);
    smap.unregister_client(&client2);
    assert!(smap.trie_is_empty());
}

#[test]
fn test_match_any() {
    let mut smap: SubMap<String> = SubMap::new().match_any("+").wildcard("#");
    let client1 = "client1".to_owned();
    smap.register_client(&client1);
    assert_eq!(smap.get_subscribers("abc/xxx").len(), 0);
    smap.subscribe("+/xxx", &client1);
    assert_eq!(smap.get_subscribers("abc/xxx").len(), 1);
    assert_eq!(smap.get_subscribers("unix/zzz/xxx/222").len(), 0);
    smap.subscribe("+/zzz/+/222", &client1);
    assert_eq!(smap.get_subscribers("unix/zzz/xxx/222").len(), 1);
}

#[test]
fn test_match_formula() {
    let mut smap: SubMap<String> = SubMap::new()
        .match_any("+")
        .wildcard("#")
        .formula_prefix("!");
    let client1 = "client1".to_owned();
    smap.register_client(&client1);
    assert_eq!(smap.get_subscribers("1/xxx").len(), 0);
    smap.subscribe("!ge(2)/xxx", &client1);
    assert_eq!(smap.get_subscribers("1/xxx").len(), 0);
    assert_eq!(smap.get_subscribers("2/xxx").len(), 1);
    assert_eq!(smap.get_subscribers("3/xxx").len(), 1);
    assert_eq!(smap.get_subscribers("unix/zzz/95/222").len(), 0);
    assert_eq!(smap.get_subscribers("unix/zzz/96/222").len(), 0);
    assert_eq!(smap.get_subscribers("unix/zzz/97/222").len(), 0);
    smap.subscribe("+/zzz/!ge(96)/222", &client1);
    assert_eq!(smap.get_subscribers("unix/zzz/95/222").len(), 0);
    assert_eq!(smap.get_subscribers("unix/zzz/96/222").len(), 1);
    assert_eq!(smap.get_subscribers("unix/zzz/97/222").len(), 1);
}

#[test]
fn test_match_regex() {
    let mut smap: SubMap<String> = SubMap::new().match_any("+").wildcard("#").regex_prefix("~");
    let client1 = "client1".to_owned();
    smap.register_client(&client1);
    assert_eq!(smap.get_subscribers("test1/xxx").len(), 0);
    smap.subscribe("~^test\\d+$/xxx", &client1);
    assert_eq!(smap.get_subscribers("test1/xxx").len(), 1);
    assert_eq!(smap.get_subscribers("test2/xxx").len(), 1);
    assert_eq!(smap.get_subscribers("test3333/xxx").len(), 1);
    assert_eq!(smap.get_subscribers("test3333a/xxx").len(), 0);
    let client2 = "client2".to_owned();
    smap.register_client(&client2);
    smap.subscribe("~^test\\d+$/xxx", &client2);
    assert_eq!(smap.get_subscribers("test1/xxx").len(), 2);
    assert_eq!(smap.get_subscribers("test2/xxx").len(), 2);
    assert_eq!(smap.get_subscribers("test3333/xxx").len(), 2);
    assert_eq!(smap.get_subscribers("test3333a/xxx").len(), 0);
    smap.unsubscribe("~^test\\d+$/xxx", &client1);
    assert_eq!(smap.get_subscribers("test1/xxx").len(), 1);
    smap.unsubscribe("~^test\\d+$/xxx", &client2);
    assert_eq!(smap.get_subscribers("test1/xxx").len(), 0);
}

use submap::BroadcastMap;

#[test]
fn test_broadcast() {
    let mut bmap: BroadcastMap<u32> = BroadcastMap::new().separator('/');
    let client1: u32 = 1;
    let client2: u32 = 2;
    let client3: u32 = 3;
    let client4: u32 = 4;
    let client5: u32 = 5;
    bmap.register_client("this/is/a", &client1);
    bmap.register_client("this/is/b", &client2);
    bmap.register_client("this/is", &client3);
    bmap.register_client("this", &client4);
    bmap.register_client("that/is/a", &client5);
    let clients = bmap.get_clients_by_mask("this/is/*");
    assert!(clients.contains(&client1));
    assert!(clients.contains(&client2));
    assert!(!clients.contains(&client3));
    assert!(!clients.contains(&client4));
    assert!(!clients.contains(&client5));
    let clients = bmap.get_clients_by_mask("this/is");
    assert!(!clients.contains(&client1));
    assert!(!clients.contains(&client2));
    assert!(clients.contains(&client3));
    assert!(!clients.contains(&client4));
    assert!(!clients.contains(&client5));
    let clients = bmap.get_clients_by_mask("this");
    assert!(!clients.contains(&client1));
    assert!(!clients.contains(&client2));
    assert!(!clients.contains(&client3));
    assert!(clients.contains(&client4));
    assert!(!clients.contains(&client5));
    let clients = bmap.get_clients_by_mask("this/*");
    assert!(clients.contains(&client1));
    assert!(clients.contains(&client2));
    assert!(clients.contains(&client3));
    assert!(!clients.contains(&client4));
    assert!(!clients.contains(&client5));
    let clients = bmap.get_clients_by_mask("this/is/*");
    assert!(clients.contains(&client1));
    assert!(clients.contains(&client2));
    assert!(!clients.contains(&client3));
    assert!(!clients.contains(&client4));
    assert!(!clients.contains(&client5));
    let clients = bmap.get_clients_by_mask("*");
    assert!(clients.contains(&client1));
    assert!(clients.contains(&client2));
    assert!(clients.contains(&client3));
    assert!(clients.contains(&client4));
    assert!(clients.contains(&client5));
    let clients = bmap.get_clients_by_mask("this/is/a/*");
    assert!(!clients.contains(&client1));
    assert!(!clients.contains(&client2));
    assert!(!clients.contains(&client3));
    assert!(!clients.contains(&client4));
    assert!(!clients.contains(&client5));
    let clients = bmap.get_clients_by_mask("this/is/a/?");
    assert!(!clients.contains(&client1));
    assert!(!clients.contains(&client2));
    assert!(!clients.contains(&client3));
    assert!(!clients.contains(&client4));
    assert!(!clients.contains(&client5));
    let clients = bmap.get_clients_by_mask("this/?/a");
    assert!(clients.contains(&client1));
    assert!(!clients.contains(&client2));
    assert!(!clients.contains(&client3));
    assert!(!clients.contains(&client4));
    assert!(!clients.contains(&client5));
    let clients = bmap.get_clients_by_mask("this/?/?");
    assert!(clients.contains(&client1));
    assert!(clients.contains(&client2));
    assert!(!clients.contains(&client3));
    assert!(!clients.contains(&client4));
    assert!(!clients.contains(&client5));
    let clients = bmap.get_clients_by_mask("?/is/a");
    assert!(clients.contains(&client1));
    assert!(!clients.contains(&client2));
    assert!(!clients.contains(&client3));
    assert!(!clients.contains(&client4));
    assert!(clients.contains(&client5));
    bmap.unregister_client("this/is/a", &client1);
    bmap.unregister_client("this/is/b", &client2);
    bmap.unregister_client("this/is", &client3);
    bmap.unregister_client("this", &client4);
    bmap.unregister_client("that/is/a", &client5);
    assert!(bmap.is_empty());
}

use pastry_dht::store::Store;

#[test]
fn store_set_then_get_returns_written_value() {
    let mut store = Store::new();
    assert!(store.set(&7, b"alpha").is_none());
    assert_eq!(store.get(&7).unwrap(), b"alpha".to_vec());
}

#[test]
fn store_delete_then_get_returns_nothing() {
    let mut store = Store::new();
    store.set(&7, b"alpha");
    assert_eq!(store.delete(&7).unwrap(), b"alpha".to_vec());
    assert!(store.get(&7).is_none());
    assert!(store.delete(&7).is_none());
}

#[test]
fn store_set_twice_returns_prior_and_keeps_last() {
    let mut store = Store::new();
    assert!(store.set(&7, b"first").is_none());
    assert_eq!(store.set(&7, b"second").unwrap(), b"first".to_vec());
    assert_eq!(store.get(&7).unwrap(), b"second".to_vec());
}

#[test]
fn store_list_and_filtered_scan() {
    let mut store = Store::new();
    store.set(&10, b"a");
    store.set(&20, b"b");
    store.set(&30, b"c");

    let all = store.list();
    assert_eq!(all.len(), 3);

    // keys outside the clockwise range (15, 25] are handed off
    let handed_off = store.get_entries(15, 25);
    let mut ids: Vec<u64> = handed_off.iter().map(|e| e.0).collect();
    ids.sort();
    assert_eq!(ids, vec![10, 30]);
}

use pastry_dht::node::NodeInfo;
use pastry_dht::table::RoutingTable;

fn setup() -> RoutingTable {
    let id: u64 = 0xFEDCBA9876543210;

    RoutingTable::new(id)
}

fn info(id: u64) -> NodeInfo {
    NodeInfo::new(id, "")
}

fn cell_id(t: &RoutingTable, row: usize, column: usize) -> Option<u64> {
    t.get_row(row).unwrap()[column].as_ref().map(|n| n.id)
}

#[test]
fn table_test_insert() {
    let mut t = setup();
    let key: u64 = 0xFEDCBA0000000000;
    t.insert(key, info(key)).unwrap();
    assert_eq!(cell_id(&t, 6, 0), Some(key));

    let key: u64 = 0xFEDCBA9400000000;
    t.insert(key, info(key)).unwrap();
    assert_eq!(cell_id(&t, 7, 4), Some(key));
}

#[test]
fn table_test_remove() {
    let mut t = setup();
    let key1: u64 = 0xFEDCBA0000000000;
    t.insert(key1, info(key1)).unwrap();
    let key2: u64 = 0xFEDCBA9400000000;
    t.insert(key2, info(key2)).unwrap();

    t.remove(key1).unwrap();
    assert_eq!(cell_id(&t, 6, 0), None);
}

#[test]
fn test_route() {
    let mut t = setup();
    let kv1: u64 = 0xFEDCBA0000000000;
    t.insert(kv1, info(kv1)).unwrap();
    let kv2: u64 = 0xFEDCBA1111111111;
    t.insert(kv2, info(kv2)).unwrap();
    let kv3: u64 = 0xFEDCBA2111111111;
    t.insert(kv3, info(kv3)).unwrap();
    let kv4: u64 = 0xFEDCBA4000000000;
    t.insert(kv4, info(kv4)).unwrap();

    let key = 0xFEDCBA0111111111;
    let (node, matched) = t.route(key, 0).unwrap().unwrap();
    assert_eq!((node.id, matched), (kv1, 6));
    let (node, matched) = t.route(key, 6).unwrap().unwrap();
    assert_eq!((node.id, matched), (kv1, 6));

    let key = 0xFEDCBA3333333333;
    let (node, matched) = t.route(key, 0).unwrap().unwrap();
    assert_eq!((node.id, matched), (kv4, 6));
}

#[test]
fn table_prefix_invariant_concrete() {
    // every occupied cell (r, c) holds an id sharing exactly the first r
    // digits with self and continuing with digit c
    let mut t = setup();
    let own: u64 = 0xFEDCBA9876543210;
    for key in [0xFEDCBA0000000000u64, 0xFEDCBA9400000000, 0x1000000000000000, own] {
        t.insert(key, info(key)).unwrap();
    }
    for row in 0..16usize {
        let cells = match t.get_row(row) {
            Some(cells) => cells,
            None => break,
        };
        for (col, cell) in cells.iter().enumerate() {
            if let Some(n) = cell {
                assert_ne!(n.id, own);
                let matched =
                    pastry_dht::util::get_num_matched_digits(own, n.id).unwrap() as usize;
                assert_eq!(matched, row);
                let digit =
                    pastry_dht::util::get_nth_digit_in_u64_hex(n.id, row).unwrap() as usize;
                assert_eq!(digit, col);
            }
        }
    }
}

#[test]
fn table_route_empty_and_missing_rows() {
    let t = setup();
    assert!(t.route(0x1234, 0).unwrap().is_none());

    let mut t = setup();
    let key: u64 = 0x1000000000000000;
    t.insert(key, info(key)).unwrap();
    // the only row is row 0; a query asking for a longer shared prefix than
    // any materialized row finds no table route
    assert!(t.route(0xFEDCBA9876543211, 0).unwrap().is_none());
}

#[test]
fn table_route_progress_concrete() {
    // an exact-cell hit shares a strictly longer prefix with the key than
    // self does, which is what bounds forwarding to the 16 digit rows
    let mut t = setup();
    let own: u64 = 0xFEDCBA9876543210;
    let entry: u64 = 0xFEDCBA3000000000;
    t.insert(entry, info(entry)).unwrap();
    let key: u64 = 0xFEDCBA3333333333;
    let (node, matched) = t.route(key, 0).unwrap().unwrap();
    assert_eq!(node.id, entry);
    let before = pastry_dht::util::get_num_matched_digits(own, key).unwrap();
    let after = pastry_dht::util::get_num_matched_digits(node.id, key).unwrap();
    assert_eq!(matched as u32, before);
    assert!(after > before);
}

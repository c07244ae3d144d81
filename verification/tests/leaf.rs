use pastry_dht::leaf::LeafSet;
use pastry_dht::leaf::leafset_from_vec;
use pastry_dht::leaf::set_to_vec;
use pastry_dht::node::NodeInfo;

fn info(id: u64) -> NodeInfo {
    NodeInfo::new(id, "")
}

#[test]
fn test_find_owner() {
    let k = 2;
    // Size < MAX_SIZE

    // -> 300 -> 100 -> 200 ->
    let leafset = leafset_from_vec(k, 100, vec![100, 200, 300]);
    assert_eq!(leafset.find_owner(350), Some(2));
    assert_eq!(leafset.find_owner(50), Some(2));
    assert_eq!(leafset.find_owner(150), Some(0));
    assert_eq!(leafset.find_owner(250), Some(1));

    // Size == MAX_SIZE

    // 400 -> 500 -> 100 -> 200 -> 300
    let leafset = leafset_from_vec(k, 100, vec![100, 200, 300, 400, 500]);
    assert_eq!(leafset.find_owner(450), Some(3));
    assert_eq!(leafset.find_owner(550), Some(4));
    assert_eq!(leafset.find_owner(150), Some(0));
    assert_eq!(leafset.find_owner(250), Some(1));
    assert_eq!(leafset.find_owner(350), None);

    // 100 -> 200 -> 300 -> 400 -> 500
    let leafset = leafset_from_vec(k, 300, vec![100, 200, 300, 400, 500]);
    assert_eq!(leafset.find_owner(50), None);
    assert_eq!(leafset.find_owner(150), Some(0));
    assert_eq!(leafset.find_owner(250), Some(1));
    assert_eq!(leafset.find_owner(350), Some(2));
    assert_eq!(leafset.find_owner(450), Some(3));
    assert_eq!(leafset.find_owner(550), None);
}

#[test]
fn leaf_test_insert() {
    let k = 2;
    let mut leaf = LeafSet::new(k, 0, info(0)).unwrap();

    leaf.insert(2, info(2)).unwrap();
    assert_eq!(set_to_vec(&leaf), vec![0, 2]);
    leaf.insert(4, info(4)).unwrap();
    assert_eq!(set_to_vec(&leaf), vec![0, 2, 4]);
    leaf.insert(6, info(6)).unwrap();
    assert_eq!(set_to_vec(&leaf), vec![0, 2, 4, 6]);
    leaf.insert(8, info(8)).unwrap();
    assert_eq!(set_to_vec(&leaf), vec![0, 2, 4, 6, 8]);

    assert_eq!(leaf.insert(5, info(5)).is_err(), true);

    leaf.insert(3, info(3)).unwrap();
    assert_eq!(set_to_vec(&leaf), vec![0, 2, 3, 6, 8]);
    leaf.insert(1, info(1)).unwrap();
    assert_eq!(set_to_vec(&leaf), vec![0, 1, 2, 6, 8]);
    leaf.insert(7, info(7)).unwrap();
    assert_eq!(set_to_vec(&leaf), vec![0, 1, 2, 7, 8]);

    let mut leaf = leafset_from_vec(k, 4, vec![0, 1, 2, 3, 4]);
    leaf.insert(5, info(5)).unwrap();
    assert_eq!(set_to_vec(&leaf), vec![0, 2, 3, 4, 5]);

    let mut leaf = leafset_from_vec(k, 3, vec![1, 3, 4, 5, 6]);
    leaf.insert(2, info(2)).unwrap();
    assert_eq!(set_to_vec(&leaf), vec![1, 2, 3, 4, 5]);
}

#[test]
fn leaf_test_remove() {
    let k = 2;
    let mut leaf = leafset_from_vec(k, 200, vec![100, 200, 300, 400]);

    leaf.remove(100).unwrap();
    assert_eq!(set_to_vec(&leaf), vec![200, 300, 400]);
    assert_eq!(leaf.node_index(), 0);
    leaf.remove(300).unwrap();
    assert_eq!(set_to_vec(&leaf), vec![200, 400]);
    assert_eq!(leaf.node_index(), 0);
}

#[test]
fn leaf_invariant_concrete() {
    // the leaf-set invariant on a concrete run: self stays present, the
    // size never exceeds 2k + 1, and ids stay distinct
    let k = 1;
    let mut leaf = LeafSet::new(k, 50, info(50)).unwrap();
    for id in [10u64, 20, 30, 40, 60, 70, 80, 90] {
        let _ = leaf.insert(id, info(id));
        let ids = set_to_vec(&leaf);
        assert!(ids.len() <= 2 * k + 1);
        assert!(ids.contains(&50));
        let mut deduped = ids.clone();
        deduped.dedup();
        assert_eq!(deduped, ids);
    }
    assert!(leaf.is_full());
    assert_eq!(leaf.get_max_size(), 3);
}

#[test]
fn leaf_edges_and_neighbors() {
    let leafset = leafset_from_vec(2, 300, vec![100, 200, 300, 400, 500]);
    assert_eq!(leafset.get_furthest_clockwise_neighbor().unwrap().id, 500);
    assert_eq!(leafset.get_furthest_counter_clockwise_neighbor().unwrap().id, 100);
    assert_eq!(leafset.get_first_clockwise_neighbor().unwrap().id, 400);
    assert_eq!(leafset.get_first_counter_clockwise_neighbor().unwrap().id, 200);

    let small = leafset_from_vec(2, 300, vec![300]);
    assert!(small.get_first_clockwise_neighbor().is_none());
    assert!(small.get_first_counter_clockwise_neighbor().is_none());
    assert!(small.get_furthest_clockwise_neighbor().is_none());
    assert!(small.get_furthest_counter_clockwise_neighbor().is_none());
}

#[test]
fn leaf_get_closest_prefers_nearest() {
    let leafset = leafset_from_vec(2, 100, vec![100, 200, 300, 400, 500]);
    let (closest, _) = leafset.get_closest(210).unwrap();
    assert_eq!(closest.id, 200);
    let (closest, _) = leafset.get_closest(499).unwrap();
    assert_eq!(closest.id, 500);
    // equidistant: the clockwise entry wins the tie
    let (closest, _) = leafset.get_closest(350).unwrap();
    assert_eq!(closest.id, 400);
    // a key equal to a peer id names that peer
    let (closest, _) = leafset.get_closest(400).unwrap();
    assert_eq!(closest.id, 400);
}

#[test]
fn leaf_rejects_bad_config_and_self_removal() {
    assert!(LeafSet::new(0, 5, info(5)).is_err());
    let mut leaf = leafset_from_vec(1, 10, vec![10, 20]);
    assert!(leaf.remove(10).is_err());
    assert!(leaf.remove(30).is_err());
}

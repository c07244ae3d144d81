use pastry_dht::node::Node;
use pastry_dht::node::NodeState;
use pastry_dht::rpc::AnnounceArrivalRequest;
use pastry_dht::rpc::JoinRequest;
use pastry_dht::rpc::KeyValueEntry;
use pastry_dht::rpc::QueryError;
use pastry_dht::rpc::QueryRequest;
use pastry_dht::rpc::QueryType;
use pastry_dht::rpc::TransferKeysRequest;
use pastry_dht::service::JoinOutcome;
use pastry_dht::service::LeafRepairPlan;
use pastry_dht::service::NextHop;
use pastry_dht::service::QueryOutcome;
use pastry_dht::shared::Config;

fn peer(k: usize, id: u64) -> Node {
    let mut node = Node::from_id(Config::new(k), format!("http://peer-{}", id), id).unwrap();
    node.change_state(NodeState::RoutingRequests);
    node
}

fn query(query_type: QueryType, key: u64, value: Option<Vec<u8>>) -> QueryRequest {
    QueryRequest { from_id: 0, matched_digits: 0, hops: 0, query_type, key, value }
}

fn announce(node: &mut Node, id: u64) {
    let req = AnnounceArrivalRequest { id, pub_addr: format!("http://peer-{}", id) };
    node.announce_arrival_service(&req).unwrap();
}

#[test]
fn single_peer_set_get_delete() {
    // a network of one peer: every query self-delivers with zero hops
    let mut node = peer(1, 42);

    match node.query_service(&query(QueryType::Put, 5, Some(b"v".to_vec()))) {
        QueryOutcome::Respond(resp) => {
            assert_eq!(resp.from_id, 42);
            assert_eq!(resp.hops, 0);
            assert!(resp.value.is_none());
            assert!(resp.error.is_none());
        },
        QueryOutcome::Forward(_) => panic!("expected local delivery"),
    }

    match node.query_service(&query(QueryType::Get, 5, None)) {
        QueryOutcome::Respond(resp) => {
            assert_eq!(resp.value.unwrap(), b"v".to_vec());
            assert!(resp.error.is_none());
        },
        QueryOutcome::Forward(_) => panic!("expected local delivery"),
    }

    match node.query_service(&query(QueryType::Delete, 5, None)) {
        QueryOutcome::Respond(resp) => {
            assert_eq!(resp.value.unwrap(), b"v".to_vec());
        },
        QueryOutcome::Forward(_) => panic!("expected local delivery"),
    }

    match node.query_service(&query(QueryType::Get, 5, None)) {
        QueryOutcome::Respond(resp) => {
            assert!(resp.value.is_none());
            assert_eq!(resp.error, Some(QueryError::KeyNotFound));
        },
        QueryOutcome::Forward(_) => panic!("expected local delivery"),
    }
}

#[test]
fn put_without_value_is_rejected_in_band() {
    let mut node = peer(1, 42);
    match node.query_service(&query(QueryType::Put, 5, None)) {
        QueryOutcome::Respond(resp) => {
            assert_eq!(resp.error, Some(QueryError::ValueNotProvided));
            assert!(resp.value.is_none());
        },
        QueryOutcome::Forward(_) => panic!("expected local delivery"),
    }
}

#[test]
fn execute_query_errors_are_value_kind() {
    let mut node = peer(1, 42);
    let err = node.execute_query(&query(QueryType::Get, 9, None)).unwrap_err();
    assert_eq!(err.kind_name(), "value");
    let err = node.execute_query(&query(QueryType::Delete, 9, None)).unwrap_err();
    assert_eq!(err.kind_name(), "value");
}

#[test]
fn two_peers_route_to_nearest_predecessor() {
    // two peers with ids 10 and 20: a key between them belongs to 10
    let mut a = peer(2, 10);
    let mut b = peer(2, 20);
    announce(&mut a, 20);
    announce(&mut b, 10);

    let outcome = b.query_service(&query(QueryType::Put, 15, Some(b"x".to_vec())));
    let forwarded = match outcome {
        QueryOutcome::Forward(fwd) => fwd,
        QueryOutcome::Respond(_) => panic!("peer 20 does not own key 15"),
    };
    assert_eq!(forwarded.from_id, 20);
    assert_eq!(forwarded.hops, 1);

    match b.next_hop(15, forwarded.matched_digits as usize) {
        NextHop::LeafNode(n) => assert_eq!(n.id, 10),
        _ => panic!("expected the leaf-set owner as next hop"),
    }

    match a.query_service(&forwarded) {
        QueryOutcome::Respond(resp) => {
            assert_eq!(resp.from_id, 10);
            assert!(resp.error.is_none());
        },
        QueryOutcome::Forward(_) => panic!("peer 10 owns key 15"),
    }

    // Get from either peer resolves at peer 10
    match a.query_service(&query(QueryType::Get, 15, None)) {
        QueryOutcome::Respond(resp) => {
            assert_eq!(resp.from_id, 10);
            assert_eq!(resp.value.unwrap(), b"x".to_vec());
        },
        QueryOutcome::Forward(_) => panic!("peer 10 owns key 15"),
    }

    // a key equal to a peer id is owned by that peer
    match b.query_service(&query(QueryType::Get, 20, None)) {
        QueryOutcome::Respond(resp) => assert_eq!(resp.from_id, 20),
        QueryOutcome::Forward(_) => panic!("peer 20 owns its own id"),
    }
}

#[test]
fn join_then_arrivals_link_both_peers() {
    // a joining peer inherits the terminal hop's leaf set and, after its
    // arrival announcement, appears in that peer's own leaf set
    let mut bootstrap = peer(1, 100);
    let mut joiner = peer(1, 150);

    let req = JoinRequest {
        id: 150,
        pub_addr: "http://peer-150".to_owned(),
        hops: 0,
        matched_digits: 0,
        routing_table: Vec::new(),
    };
    let resp = match bootstrap.join_service(&req) {
        JoinOutcome::Respond(resp) => resp,
        JoinOutcome::Forward(_) => panic!("the only peer is the terminal hop"),
    };
    assert_eq!(resp.id, 100);
    assert_eq!(resp.hops, 0);
    assert_eq!(resp.leaf_set.len(), 1);
    assert_eq!(resp.leaf_set[0].id, 100);

    let leaf_infos = resp
        .leaf_set
        .iter()
        .map(pastry_dht::node::NodeInfo::from_node_entry)
        .collect();
    let table_infos = resp
        .routing_table
        .iter()
        .map(pastry_dht::node::NodeInfo::from_node_entry)
        .collect();
    joiner.route_with_state(leaf_infos, table_infos).unwrap();
    assert_eq!(joiner.state_name, NodeState::RoutingRequests);

    let joiner_leaf = joiner.get_node_state_service();
    assert!(joiner_leaf.leaf_set.iter().any(|e| e.id == 100));

    // every peer in the joiner's leaf set is told of the arrival
    announce(&mut bootstrap, 150);
    let state = bootstrap.get_node_state_service();
    assert!(state.leaf_set.iter().any(|e| e.id == 150));
}

#[test]
fn transfer_keys_hand_off_exactly_the_lost_range() {
    // once 150 joins, the keys outside the clockwise range (100, 150]
    // leave peer 100; installing them at 150 equals writing them there
    let mut owner = peer(1, 100);
    owner.execute_query(&query(QueryType::Put, 50, Some(b"fifty".to_vec()))).unwrap();
    owner.execute_query(&query(QueryType::Put, 120, Some(b"inside".to_vec()))).unwrap();
    owner.execute_query(&query(QueryType::Put, 160, Some(b"beyond".to_vec()))).unwrap();

    let handed = owner.transfer_keys_service(&TransferKeysRequest { id: 150 });
    let mut handed_keys: Vec<u64> = handed.iter().map(|e| e.0).collect();
    handed_keys.sort();
    assert_eq!(handed_keys, vec![50, 160]);

    let mut joiner = peer(1, 150);
    let entries: Vec<KeyValueEntry> =
        handed.iter().map(|e| KeyValueEntry { key: e.0, value: e.1.clone() }).collect();
    joiner.install_transferred(&entries);
    for entry in &handed {
        // the key is gone at the old owner only after the send succeeded
        owner.store.delete(&entry.0);
    }

    assert_eq!(joiner.store.get(&50).unwrap(), b"fifty".to_vec());
    assert_eq!(joiner.store.get(&160).unwrap(), b"beyond".to_vec());
    assert!(joiner.store.get(&120).is_none());
    assert_eq!(owner.store.get(&120).unwrap(), b"inside".to_vec());
    assert!(owner.store.get(&50).is_none());
    assert!(owner.store.get(&160).is_none());
}

#[test]
fn leaf_repair_plans_poll_the_failed_side() {
    let mut node = peer(2, 30);
    for id in [10u64, 20, 40, 50] {
        announce(&mut node, id);
    }
    let failed = pastry_dht::node::NodeInfo::new(50, "http://peer-50");
    match node.fix_leaf_entry(&failed).unwrap() {
        LeafRepairPlan::Poll(candidates) => {
            let ids: Vec<u64> = candidates.iter().map(|c| c.id).collect();
            assert_eq!(ids, vec![40]);
        },
        LeafRepairPlan::Repaired => panic!("a full set polls for replacements"),
    }
    let state = node.get_node_state_service();
    let ids: Vec<u64> = state.leaf_set.iter().map(|e| e.id).collect();
    assert_eq!(ids, vec![10, 20, 30, 40]);

    // a set that is not full is consistent again right after the removal
    let failed = pastry_dht::node::NodeInfo::new(40, "http://peer-40");
    match node.fix_leaf_entry(&failed).unwrap() {
        LeafRepairPlan::Repaired => {},
        LeafRepairPlan::Poll(_) => panic!("a set below capacity repairs by removal"),
    }
    assert_eq!(node.state_name, NodeState::RoutingRequests);
}

#[test]
fn table_repair_names_the_vacated_cell() {
    let mut node = peer(2, 0xFEDCBA9876543210);
    announce(&mut node, 0xFEDCBA0000000000);
    announce(&mut node, 0xFEDCBA1111111111);

    let failed = pastry_dht::node::NodeInfo::new(0xFEDCBA0000000000, "");
    let plan = node.fix_table_entry(&failed);
    assert_eq!(plan.row, 6);
    assert_eq!(plan.column, 0);
    let ids: Vec<u64> = plan.candidates.iter().map(|c| c.id).collect();
    assert_eq!(ids, vec![0xFEDCBA1111111111]);
    node.change_state(NodeState::RoutingRequests);
    let entry = node.get_node_table_entry_service(&pastry_dht::rpc::GetNodeTableEntryRequest {
        row: 6,
        column: 0,
    });
    assert!(entry.node.is_none());
}

#[test]
fn fix_leaf_set_notifications_concern_held_ids_only() {
    let mut node = peer(1, 10);
    announce(&mut node, 20);
    assert!(node.fix_leaf_set_service(20));
    assert!(!node.fix_leaf_set_service(10));
    assert!(!node.fix_leaf_set_service(99));
}

#[test]
fn lifecycle_admits_requests_only_while_routing() {
    let mut node = Node::from_id(Config::new(1), "http://peer-7".to_owned(), 7).unwrap();
    assert_eq!(node.state_name, NodeState::Uninitialized);
    assert!(!node.can_route_requests());
    node.change_state(NodeState::Initializing);
    assert!(!node.can_route_requests());
    node.change_state(NodeState::RoutingRequests);
    assert!(node.can_route_requests());
    node.change_state(NodeState::UpdatingConnections);
    assert!(!node.can_route_requests());
}

#[test]
fn node_id_is_derived_from_the_address() {
    let node = Node::new(Config::new(1), "http://0.0.0.0:4000".to_owned()).unwrap();
    let expected = pastry_dht::hasher::Sha256Hasher::hash_once(b"http://0.0.0.0:4000");
    assert_eq!(node.id, expected);
    assert!(Node::new(Config::new(0), "http://0.0.0.0:4000".to_owned()).is_err());
}

fn route_to_owner(peers: &mut Vec<Node>, start: usize, request: QueryRequest) -> pastry_dht::rpc::QueryResponse {
    let mut at = start;
    let mut request = request;
    loop {
        match peers[at].query_service(&request) {
            QueryOutcome::Respond(resp) => return resp,
            QueryOutcome::Forward(fwd) => {
                let hop = match peers[at].next_hop(fwd.key, fwd.matched_digits as usize) {
                    NextHop::DeliverLocal => unreachable!("owners respond in place"),
                    NextHop::LeafNode(n) => n,
                    NextHop::TableNode(n, _) => n,
                    NextHop::ClosestNode(n) => n,
                    NextHop::Unroutable => panic!("unroutable query"),
                };
                at = peers.iter().position(|p| p.id == hop.id).unwrap();
                request = fwd;
            }
        }
    }
}

#[test]
fn five_peers_deliver_to_the_owner() {
    // k = 2, peers at ids 100..500: a query for key 350 issued anywhere is
    // delivered to its clockwise predecessor, peer 300, within the digit
    // bound on forwarding
    let ids = [100u64, 200, 300, 400, 500];
    let mut peers: Vec<Node> = ids.iter().map(|&id| peer(2, id)).collect();
    for i in 0..peers.len() {
        for &other in &ids {
            if other != peers[i].id {
                announce(&mut peers[i], other);
            }
        }
    }

    let resp = route_to_owner(&mut peers, 0, query(QueryType::Put, 350, Some(b"w".to_vec())));
    assert_eq!(resp.from_id, 300);
    assert!(resp.hops <= 16);

    for start in 0..peers.len() {
        let resp = route_to_owner(&mut peers, start, query(QueryType::Get, 350, None));
        assert_eq!(resp.from_id, 300);
        assert_eq!(resp.value.clone().unwrap(), b"w".to_vec());
        assert!(resp.hops <= 16);
    }
}

#[test]
fn announce_merges_arrival_into_leaf_and_table() {
    // after an arrival announcement the sender appears in the receiver's
    // leaf set and in the routing-table cell its id selects
    let mut node = peer(2, 0xFEDCBA9876543210);
    let arriving: u64 = 0xFEDCBA9876543999;
    announce(&mut node, arriving);

    let state = node.get_node_state_service();
    assert!(state.leaf_set.iter().any(|e| e.id == arriving));

    let row = pastry_dht::util::get_num_matched_digits(node.id, arriving).unwrap();
    let column = pastry_dht::util::get_nth_digit_in_u64_hex(arriving, row as usize).unwrap();
    let cell = node.get_node_table_entry_service(&pastry_dht::rpc::GetNodeTableEntryRequest {
        row,
        column,
    });
    assert_eq!(cell.node.unwrap().id, arriving);
}

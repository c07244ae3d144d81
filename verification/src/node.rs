//! Peer identity and lifecycle: the node descriptor exchanged between
//! peers, and the lifecycle state machine that admits request handling.

use vstd::prelude::*;

use crate::error::Error;
use crate::hasher::Sha256Hasher;
use crate::hasher::spec_hash_once;
use crate::leaf::LeafSet;
use crate::rpc::NodeEntry;
use crate::shared::Config;
use crate::store::Store;
use crate::table::RoutingTable;
use vstd::utf8::encode_utf8;

verus! {

/// Connection information of a peer: its ring identifier and its opaque
/// transport locator.
#[derive(Debug)]
pub struct NodeInfo {
    pub id: u64,
    pub pub_addr: String,
}

impl NodeInfo {
    /// Builds a descriptor from an id and an address.
    pub fn new(id: u64, pub_addr: &str) -> (r: Self)
        ensures
            r.id == id,
            r.pub_addr@ == pub_addr@,
    {
        NodeInfo { id, pub_addr: pub_addr.to_owned() }
    }

    /// Builds a descriptor from a wire entry.
    pub fn from_node_entry(entry: &NodeEntry) -> (r: Self)
        ensures
            r.id == entry.id,
            r.pub_addr@ == entry.pub_addr@,
    {
        Self::new(entry.id, entry.pub_addr.as_str())
    }

    /// Turns the descriptor into a wire entry.
    pub fn to_node_entry(self) -> (r: NodeEntry)
        ensures
            r.id == self.id,
            r.pub_addr == self.pub_addr,
    {
        NodeEntry { id: self.id, pub_addr: self.pub_addr }
    }
}

impl Clone for NodeInfo {
    fn clone(&self) -> (r: Self)
        ensures
            r == *self,
    {
        NodeInfo { id: self.id, pub_addr: self.pub_addr.clone() }
    }
}

/// The lifecycle states of a peer.
///
/// A peer begins `Uninitialized`, moves to `Initializing` when it starts
/// serving, to `UpdatingConnections` while overlay state is being mutated,
/// and handles requests only in `RoutingRequests`.
#[derive(Debug, Clone, Copy, PartialEq, Eq, Structural)]
pub enum NodeState {
    Uninitialized,
    Initializing,
    UpdatingConnections,
    RoutingRequests,
}

/// Configuration for the Pastry network.
#[derive(Debug, Clone)]
pub struct PastryConfig {
    pub leaf_set_k: usize,
}

/// The routing state of a peer: its leaf set and routing table, mutated
/// together by join, arrival and repair.
#[derive(Debug)]
pub struct StateData {
    pub leaf: LeafSet,
    pub table: RoutingTable,
}

/// One peer of the overlay: its identity, lifecycle state, routing state
/// and key/value store. The transport layer around it serializes access;
/// the service functions mutate it through their contracts.
#[derive(Debug)]
pub struct Node {
    pub id: u64,
    pub pub_addr: String,
    pub state_name: NodeState,
    pub data: StateData,
    pub store: Store,
}

impl Node {
    /// The peer's structural invariant: leaf set and routing table well
    /// formed and centered on this peer's own id, the store without
    /// duplicate keys.
    pub open spec fn wf(&self) -> bool {
        &&& self.data.leaf.wf()
        &&& self.data.table.wf()
        &&& self.data.leaf.spec_node_key() == self.id
        &&& self.data.table.spec_id() == self.id
        &&& self.store.wf()
    }

    /// Everything but the lifecycle state and the store agrees between the
    /// two peer values: identity and routing state are untouched.
    pub open spec fn same_routing_state(&self, other: &Node) -> bool {
        &&& self.id == other.id
        &&& self.pub_addr == other.pub_addr
        &&& self.data.leaf == other.data.leaf
        &&& self.data.table == other.data.table
    }

    /// Gets this node's id and public address as a descriptor.
    pub fn get_info(&self) -> (r: NodeInfo)
        ensures
            r.id == self.id,
            r.pub_addr@ == self.pub_addr@,
    {
        NodeInfo::new(self.id, self.pub_addr.as_str())
    }

    /// Registers a new node reachable at `pub_addr`, deriving its ring id
    /// from that address. Rejects a configuration with `k < 1`.
    pub fn new(config: Config, pub_addr: String) -> (r: Result<Self, Error>)
        requires
            config.k <= usize::MAX / 5,
        ensures
            match r {
                Ok(n) => {
                    &&& config.k >= 1
                    &&& n.wf()
                    &&& n.id == spec_hash_once(encode_utf8(pub_addr@))
                    &&& n.pub_addr == pub_addr
                    &&& n.state_name == NodeState::Uninitialized
                    &&& n.data.leaf.keys() =~= seq![n.id]
                    &&& n.data.leaf.spec_max_size() == 2 * config.k + 1
                    &&& n.data.table.spec_rows() == 0
                    &&& n.store@ == Map::<u64, Seq<u8>>::empty()
                },
                Err(e) => config.k < 1 && e is Config,
            },
    {
        let id = Sha256Hasher::hash_once(pub_addr.as_str().as_bytes());
        Self::from_id(config, pub_addr, id)
    }

    /// Registers a new node reachable at `pub_addr` under a caller-chosen
    /// ring id. Rejects a configuration with `k < 1`.
    pub fn from_id(config: Config, pub_addr: String, id: u64) -> (r: Result<Self, Error>)
        requires
            config.k <= usize::MAX / 5,
        ensures
            match r {
                Ok(n) => {
                    &&& config.k >= 1
                    &&& n.wf()
                    &&& n.id == id
                    &&& n.pub_addr == pub_addr
                    &&& n.state_name == NodeState::Uninitialized
                    &&& n.data.leaf.keys() =~= seq![id]
                    &&& n.data.leaf.spec_max_size() == 2 * config.k + 1
                    &&& n.data.table.spec_rows() == 0
                    &&& n.store@ == Map::<u64, Seq<u8>>::empty()
                },
                Err(e) => config.k < 1 && e is Config,
            },
    {
        let info = NodeInfo::new(id, pub_addr.as_str());
        let leaf = match LeafSet::new(config.k, id, info) {
            Ok(l) => l,
            Err(e) => {
                return Err(e);
            },
        };
        Ok(
            Node {
                id,
                pub_addr,
                state_name: NodeState::Uninitialized,
                data: StateData { leaf, table: RoutingTable::new(id) },
                store: Store::new(),
            },
        )
    }

    /// Changes the node's lifecycle state; the transport layer wakes any
    /// task waiting for a transition.
    pub fn change_state(&mut self, next_state: NodeState)
        ensures
            final(self).state_name == next_state,
            final(self).same_routing_state(old(self)),
            final(self).store == old(self).store,
    {
        self.state_name = next_state;
    }

    /// Whether handlers may proceed: requests are handled only while the
    /// node is in its routing state.
    pub fn can_route_requests(&self) -> (r: bool)
        ensures
            r == (self.state_name == NodeState::RoutingRequests),
    {
        match self.state_name {
            NodeState::RoutingRequests => true,
            _ => false,
        }
    }
}

} // verus!

//! The request and response records of the RPC surface, as plain values.
//!
//! Wire framing and serialization are outside the core; these records are
//! what the transport layer hands to the verified service functions and
//! carries back from them.

use vstd::prelude::*;

verus! {

/// A peer as carried on the wire: its id and its transport locator.
#[derive(Debug)]
pub struct NodeEntry {
    pub id: u64,
    pub pub_addr: String,
}

impl Clone for NodeEntry {
    fn clone(&self) -> (r: Self)
        ensures
            r == *self,
    {
        NodeEntry { id: self.id, pub_addr: self.pub_addr.clone() }
    }
}

/// The operation a query carries.
#[derive(Debug, Clone, Copy, PartialEq, Eq, Structural)]
pub enum QueryType {
    Get,
    Put,
    Delete,
}

/// The application-level errors carried in-band inside a query response.
#[derive(Debug, Clone, Copy, PartialEq, Eq, Structural)]
pub enum QueryError {
    KeyNotFound,
    ValueNotProvided,
}

/// A request of a joining peer, forwarded along the overlay towards the
/// peer closest to its id.
#[derive(Debug)]
pub struct JoinRequest {
    pub id: u64,
    pub pub_addr: String,
    pub hops: u32,
    pub matched_digits: u32,
    pub routing_table: Vec<NodeEntry>,
}

/// The answer of the terminal hop of a join: its identity, the leaf set the
/// joining peer inherits, and the routing table accumulated along the path.
#[derive(Debug)]
pub struct JoinResponse {
    pub id: u64,
    pub pub_addr: String,
    pub hops: u32,
    pub leaf_set: Vec<NodeEntry>,
    pub routing_table: Vec<NodeEntry>,
}

/// A key/value operation routed to the owner of the key.
#[derive(Debug)]
pub struct QueryRequest {
    pub from_id: u64,
    pub matched_digits: u32,
    pub hops: u32,
    pub query_type: QueryType,
    pub key: u64,
    pub value: Option<Vec<u8>>,
}

/// The owner's answer to a query.
#[derive(Debug)]
pub struct QueryResponse {
    pub from_id: u64,
    pub hops: u32,
    pub key: u64,
    pub value: Option<Vec<u8>>,
    pub error: Option<QueryError>,
}

/// A newly joined peer announcing itself to its neighbors.
#[derive(Debug)]
pub struct AnnounceArrivalRequest {
    pub id: u64,
    pub pub_addr: String,
}

/// A notification that a leaf entry is suspected failed and should be
/// verified and repaired.
#[derive(Debug)]
pub struct FixLeafSetRequest {
    pub id: u64,
    pub pub_addr: String,
}

/// A request to stream the keys a peer no longer owns to the peer with the
/// given id.
#[derive(Debug)]
pub struct TransferKeysRequest {
    pub id: u64,
}

/// One streamed key/value pair of a transfer.
#[derive(Debug)]
pub struct KeyValueEntry {
    pub key: u64,
    pub value: Vec<u8>,
}

/// A peer's id.
#[derive(Debug)]
pub struct GetNodeIdResponse {
    pub id: u64,
}

/// A peer's id together with its full centered leaf set, self included.
#[derive(Debug)]
pub struct GetNodeStateResponse {
    pub id: u64,
    pub leaf_set: Vec<NodeEntry>,
}

/// A lookup of one routing-table cell.
#[derive(Debug)]
pub struct GetNodeTableEntryRequest {
    pub row: u32,
    pub column: u32,
}

/// The entry found in the requested routing-table cell, if any.
#[derive(Debug)]
pub struct GetNodeTableEntryResponse {
    pub node: Option<NodeEntry>,
}

} // verus!

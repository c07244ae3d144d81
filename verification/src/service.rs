//! The service functions of a peer: the routing cascade, query execution,
//! the join, arrival and handoff protocol steps, and the repair planning.
//!
//! Each function turns a request and the peer's state into a response, a
//! forwarding decision or a repair plan; the transport layer around the
//! library performs the sends and hands back what came of them.

use vstd::prelude::*;

use crate::error::Error;
use crate::leaf::LeafSet;
use crate::leaf::spec_closest_idx;
use crate::leaf::spec_owner_idx;
use crate::leaf::spec_pred_idx;
use crate::node::Node;
use crate::node::NodeInfo;
use crate::node::NodeState;
use crate::rpc::AnnounceArrivalRequest;
use crate::rpc::GetNodeIdResponse;
use crate::rpc::GetNodeStateResponse;
use crate::rpc::GetNodeTableEntryRequest;
use crate::rpc::GetNodeTableEntryResponse;
use crate::rpc::JoinRequest;
use crate::rpc::JoinResponse;
use crate::rpc::KeyValueEntry;
use crate::rpc::NodeEntry;
use crate::rpc::QueryError;
use crate::rpc::QueryRequest;
use crate::rpc::QueryResponse;
use crate::rpc::QueryType;
use crate::rpc::TransferKeysRequest;
use crate::table::RoutingTable;
use crate::table::spec_row_closest;
use crate::util::get_num_matched_digits;
use crate::util::spec_matched_digits;
use crate::util::spec_nth_digit;

verus! {

/// The next step of the routing cascade for a key: deliver here, forward to
/// the leaf-set owner, to a routing-table entry (with its matched-digit
/// count), to the closest leaf entry as a fallback, or give up because the
/// fallback names this peer itself.
#[derive(Debug)]
pub enum NextHop {
    DeliverLocal,
    LeafNode(NodeInfo),
    TableNode(NodeInfo, usize),
    ClosestNode(NodeInfo),
    Unroutable,
}

impl Node {
    /// Routes a key through the leaf set: the owning entry, if the key lies
    /// within the arc the leaf set spans.
    pub fn route_with_leaf_set(&self, key: u64) -> (r: Option<NodeInfo>)
        requires
            self.wf(),
        ensures
            r == if self.data.leaf.spec_is_full() && spec_owner_idx(self.data.leaf.keys(), key)
                == self.data.leaf.spec_last_idx() {
                Option::<NodeInfo>::None
            } else {
                Option::<NodeInfo>::Some(
                    self.data.leaf.infos()[spec_owner_idx(self.data.leaf.keys(), key)],
                )
            },
    {
        self.data.leaf.get(key)
    }

    /// Routes a key through the leaf set's closest entry, together with the
    /// matched-digit count of key and entry.
    pub fn get_closest_from_leaf_set(&self, key: u64) -> (r: (NodeInfo, usize))
        requires
            self.wf(),
        ensures
            r.0 == self.data.leaf.infos()[spec_closest_idx(self.data.leaf.keys(), key)],
            r.1 == spec_matched_digits(key, self.data.leaf.keys()[spec_closest_idx(
                self.data.leaf.keys(),
                key,
            )]),
    {
        match self.data.leaf.get_closest(key) {
            Ok(r) => r,
            Err(_) => {
                proof {
                    assert(false);
                }
                (self.get_info(), 0)
            },
        }
    }

    /// Routes a key through the routing table.
    pub fn route_with_routing_table(&self, key: u64, min_matched_digits: usize) -> (r: Option<
        (NodeInfo, usize),
    >)
        requires
            self.wf(),
        ensures
            ({
                let t = &self.data.table;
                let row = if spec_matched_digits(self.id, key) >= min_matched_digits {
                    spec_matched_digits(self.id, key)
                } else {
                    min_matched_digits as int
                };
                if row >= t.spec_rows() {
                    r is None
                } else {
                    let col = spec_nth_digit(key, row) as int;
                    match t.spec_cell(row, col) {
                        Option::Some(kv) => r == Option::Some((kv.value, row as usize)),
                        Option::None => {
                            let w = spec_row_closest(t.spec_row(row), self.id);
                            if w < 0 {
                                r is None
                            } else {
                                r == Option::Some((t.spec_row(row)[w]->Some_0.value, row as usize))
                            }
                        },
                    }
                }
            }),
    {
        match self.data.table.route(key, min_matched_digits) {
            Ok(r) => r,
            Err(_) => {
                proof {
                    assert(false);
                }
                None
            },
        }
    }

    /// Resolves the next hop for a key via the cascade: leaf-set owner
    /// first, then the routing table, then the closest leaf entry. A key
    /// owned by this peer is delivered locally; a fallback that names this
    /// peer again is unroutable.
    pub fn next_hop(&self, key: u64, min_matched_digits: usize) -> (r: NextHop)
        requires
            self.wf(),
        ensures
            ({
                let leaf = &self.data.leaf;
                let owner_exists = !(leaf.spec_is_full() && spec_owner_idx(leaf.keys(), key)
                    == leaf.spec_last_idx());
                let owner = leaf.infos()[spec_owner_idx(leaf.keys(), key)];
                let closest = leaf.infos()[spec_closest_idx(leaf.keys(), key)];
                match r {
                    NextHop::DeliverLocal => owner_exists && owner.id == self.id,
                    NextHop::LeafNode(n) => owner_exists && owner.id != self.id && n == owner,
                    NextHop::TableNode(n, m) => {
                        &&& !owner_exists
                        &&& n.id != self.id
                        &&& ({
                            let t = &self.data.table;
                            let row = if spec_matched_digits(self.id, key)
                                >= min_matched_digits {
                                spec_matched_digits(self.id, key)
                            } else {
                                min_matched_digits as int
                            };
                            &&& row < t.spec_rows()
                            &&& m == row
                            &&& ({
                                let col = spec_nth_digit(key, row) as int;
                                match t.spec_cell(row, col) {
                                    Option::Some(kv) => n == kv.value,
                                    Option::None => {
                                        let w = spec_row_closest(t.spec_row(row), self.id);
                                        &&& w >= 0
                                        &&& n == t.spec_row(row)[w]->Some_0.value
                                    },
                                }
                            })
                        })
                    },
                    NextHop::ClosestNode(n) => !owner_exists && n == closest && n.id != self.id,
                    NextHop::Unroutable => !owner_exists && closest.id == self.id,
                }
            }),
    {
        proof {
            crate::util::lemma_matched_digits(self.id, key);
        }
        if let Some(owner) = self.route_with_leaf_set(key) {
            if owner.id == self.id {
                return NextHop::DeliverLocal;
            }
            return NextHop::LeafNode(owner);
        }

        if let Some((node, matched)) = self.route_with_routing_table(key, min_matched_digits) {
            if node.id != self.id {
                return NextHop::TableNode(node, matched);
            }
        }

        let (closest, _) = self.get_closest_from_leaf_set(key);
        if closest.id == self.id {
            return NextHop::Unroutable;
        }
        NextHop::ClosestNode(closest)
    }

    /// Executes a query against the local store: `Get` reads, `Put` writes
    /// and returns the prior value, `Delete` removes and returns the
    /// removed value. A read or delete of an absent key and a write without
    /// a value fail.
    pub fn execute_query(&mut self, query: &QueryRequest) -> (r: Result<Option<Vec<u8>>, Error>)
        requires
            old(self).wf(),
        ensures
            final(self).wf(),
            final(self).same_routing_state(old(self)),
            final(self).state_name == old(self).state_name,
            match query.query_type {
                QueryType::Get => {
                    &&& final(self).store == old(self).store
                    &&& match r {
                        Ok(v) => old(self).store@.contains_key(query.key) && (v matches Some(b)
                            && b@ == old(self).store@[query.key]),
                        Err(e) => !old(self).store@.contains_key(query.key) && e is Value,
                    }
                },
                QueryType::Put => {
                    match query.value {
                        Option::None => final(self).store == old(self).store && (r matches Err(
                            e,
                        ) && e is Value),
                        Option::Some(v) => {
                            &&& final(self).store@ == old(self).store@.insert(query.key, v@)
                            &&& match r {
                                Ok(prior) => match prior {
                                    Option::Some(b) => old(self).store@.contains_key(query.key)
                                        && b@ == old(self).store@[query.key],
                                    Option::None => !old(self).store@.contains_key(query.key),
                                },
                                Err(_) => false,
                            }
                        },
                    }
                },
                QueryType::Delete => {
                    match r {
                        Ok(v) => {
                            &&& old(self).store@.contains_key(query.key)
                            &&& final(self).store@ == old(self).store@.remove(query.key)
                            &&& v matches Some(b) && b@ == old(self).store@[query.key]
                        },
                        Err(e) => {
                            &&& !old(self).store@.contains_key(query.key)
                            &&& final(self).store@ == old(self).store@
                            &&& e is Value
                        },
                    }
                },
            },
    {
        let key = query.key;

        match query.query_type {
            QueryType::Put => match &query.value {
                None => Err(Error::Value("Value not provided".to_owned())),
                Some(value) => Ok(self.store.set(&key, value.as_slice())),
            },
            QueryType::Get => match self.store.get(&key) {
                None => Err(Error::Value("Key not present in database".to_owned())),
                Some(value) => Ok(Some(value)),
            },
            QueryType::Delete => {
                let removed = self.store.delete(&key);
                proof {
                    if removed is None {
                        assert(self.store@ =~= old(self).store@);
                    }
                }
                match removed {
                    None => Err(Error::Value("Key not present in database.".to_owned())),
                    Some(value) => Ok(Some(value)),
                }
            },
        }
    }

    /// Handles a query: when this peer owns the key the query is executed
    /// and answered, application errors carried in-band; otherwise the
    /// request is restamped for forwarding through the cascade.
    pub fn query_service(&mut self, req: &QueryRequest) -> (r: QueryOutcome)
        requires
            old(self).wf(),
            req.hops < u32::MAX,
        ensures
            final(self).wf(),
            final(self).same_routing_state(old(self)),
            final(self).state_name == old(self).state_name,
            ({
                let leaf = &old(self).data.leaf;
                let owner_exists = !(leaf.spec_is_full() && spec_owner_idx(leaf.keys(), req.key)
                    == leaf.spec_last_idx());
                let owner = leaf.infos()[spec_owner_idx(leaf.keys(), req.key)];
                if owner_exists && owner.id == old(self).id {
                    match r {
                        QueryOutcome::Respond(resp) => {
                            &&& resp.from_id == old(self).id
                            &&& resp.hops == req.hops
                            &&& resp.key == req.key
                            &&& match req.query_type {
                                QueryType::Get => {
                                    &&& final(self).store == old(self).store
                                    &&& if old(self).store@.contains_key(req.key) {
                                        resp.value matches Some(b) && b@ == old(
                                            self,
                                        ).store@[req.key] && resp.error is None
                                    } else {
                                        resp.value is None && resp.error == Some(
                                            QueryError::KeyNotFound,
                                        )
                                    }
                                },
                                QueryType::Put => {
                                    match req.value {
                                        Option::None => final(self).store == old(self).store
                                            && resp.value is None && resp.error == Some(
                                            QueryError::ValueNotProvided,
                                        ),
                                        Option::Some(v) => {
                                            &&& final(self).store@ == old(self).store@.insert(
                                                req.key,
                                                v@,
                                            )
                                            &&& resp.error is None
                                            &&& if old(self).store@.contains_key(req.key) {
                                                resp.value matches Some(b) && b@ == old(
                                                    self,
                                                ).store@[req.key]
                                            } else {
                                                resp.value is None
                                            }
                                        },
                                    }
                                },
                                QueryType::Delete => {
                                    if old(self).store@.contains_key(req.key) {
                                        &&& final(self).store@ == old(self).store@.remove(
                                            req.key,
                                        )
                                        &&& resp.value matches Some(b) && b@ == old(
                                            self,
                                        ).store@[req.key]
                                        &&& resp.error is None
                                    } else {
                                        &&& final(self).store@ == old(self).store@
                                        &&& resp.value is None
                                        &&& resp.error == Some(QueryError::KeyNotFound)
                                    }
                                },
                            }
                        },
                        QueryOutcome::Forward(_) => false,
                    }
                } else {
                    match r {
                        QueryOutcome::Forward(fwd) => {
                            &&& final(self).store == old(self).store
                            &&& fwd.from_id == old(self).id
                            &&& fwd.matched_digits == spec_matched_digits(old(self).id, req.key)
                            &&& fwd.hops == req.hops + 1
                            &&& fwd.key == req.key
                            &&& fwd.query_type == req.query_type
                            &&& spec_opt_bytes(fwd.value) == spec_opt_bytes(req.value)
                        },
                        QueryOutcome::Respond(_) => false,
                    }
                }
            }),
    {
        if let Some(node) = self.route_with_leaf_set(req.key) {
            if node.id == self.id {
                return match self.execute_query(req) {
                    Ok(value) => QueryOutcome::Respond(
                        QueryResponse {
                            from_id: self.id,
                            hops: req.hops,
                            key: req.key,
                            value,
                            error: None,
                        },
                    ),
                    Err(_) => QueryOutcome::Respond(
                        QueryResponse {
                            from_id: self.id,
                            hops: req.hops,
                            key: req.key,
                            value: None,
                            error: Some(
                                match req.query_type {
                                    QueryType::Put => QueryError::ValueNotProvided,
                                    QueryType::Get => QueryError::KeyNotFound,
                                    QueryType::Delete => QueryError::KeyNotFound,
                                },
                            ),
                        },
                    ),
                };
            }
        }

        let matched = match get_num_matched_digits(self.id, req.key) {
            Ok(m) => m,
            Err(_) => {
                proof {
                    assert(false);
                }
                0
            },
        };
        QueryOutcome::Forward(
            QueryRequest {
                from_id: self.id,
                matched_digits: matched,
                hops: req.hops + 1,
                query_type: req.query_type,
                key: req.key,
                value: clone_value(&req.value),
            },
        )
    }
}

/// Wire entries are sorted strictly by id.
pub open spec fn spec_entries_sorted(s: Seq<NodeEntry>) -> bool {
    forall|i: int, j: int| 0 <= i < j < s.len() ==> s[i].id < s[j].id
}

/// Some entry of the list carries the given id.
pub open spec fn spec_has_id(s: Seq<NodeEntry>, id: u64) -> bool {
    exists|i: int| 0 <= i < s.len() && s[i].id == id
}

/// Some descriptor of the list carries the given id.
pub open spec fn spec_infos_have_id(s: Seq<NodeInfo>, id: u64) -> bool {
    exists|i: int| 0 <= i < s.len() && s[i].id == id
}

/// The descriptor a wire entry is read as.
pub open spec fn spec_info_of(entry: NodeEntry) -> NodeInfo {
    NodeInfo { id: entry.id, pub_addr: entry.pub_addr }
}

/// One leaf-set insertion at the level of the sorted views: an id already
/// held changes nothing; otherwise it takes its sorted place, displacing
/// the furthest entry on its own side of self when the set is full, and is
/// refused (changing nothing) when the full set names its furthest
/// clockwise entry as the id's owner.
pub open spec fn spec_leaf_step(
    keys: Seq<u64>,
    infos: Seq<NodeInfo>,
    max: int,
    node_key: u64,
    entry: NodeEntry,
) -> (Seq<u64>, Seq<NodeInfo>) {
    let key = entry.id;
    let value = spec_info_of(entry);
    if keys.contains(key) {
        (keys, infos)
    } else if keys.len() < max {
        let p = spec_pred_idx(keys, key) + 1;
        (keys.insert(p, key), infos.insert(p, value))
    } else {
        let node = spec_pred_idx(keys, node_key);
        let last = crate::leaf::spec_cyc(node + max / 2, max);
        let first = crate::leaf::spec_cyc(last + 1, max);
        let owner = spec_owner_idx(keys, key);
        if owner == last {
            (keys, infos)
        } else {
            let cw = if last > node {
                node <= owner <= last
            } else {
                node <= owner || owner <= last
            };
            let d = if cw {
                last
            } else {
                first
            };
            let rk = keys.remove(d);
            let ri = infos.remove(d);
            let p = spec_pred_idx(rk, key) + 1;
            (rk.insert(p, key), ri.insert(p, value))
        }
    }
}

/// The leaf-set views after inserting a batch of wire entries in order.
pub open spec fn spec_leaf_fold(
    keys: Seq<u64>,
    infos: Seq<NodeInfo>,
    max: int,
    node_key: u64,
    entries: Seq<NodeEntry>,
) -> (Seq<u64>, Seq<NodeInfo>)
    decreases entries.len(),
{
    if entries.len() == 0 {
        (keys, infos)
    } else {
        let prev = spec_leaf_fold(keys, infos, max, node_key, entries.drop_last());
        spec_leaf_step(prev.0, prev.1, max, node_key, entries.last())
    }
}

/// The index of the last batch entry whose id selects cell (r, c) of the
/// routing table of `self_id`; `-1` when none does.
pub open spec fn spec_last_writer(entries: Seq<NodeEntry>, self_id: u64, r: int, c: int) -> int
    decreases entries.len(),
{
    if entries.len() == 0 {
        -1
    } else if entries.last().id != self_id && spec_matched_digits(self_id, entries.last().id)
        == r && spec_nth_digit(entries.last().id, r) == c {
        entries.len() - 1
    } else {
        spec_last_writer(entries.drop_last(), self_id, r, c)
    }
}

/// The number of rows the routing table of `self_id` holds after a batch:
/// grown to just past the longest prefix any batch entry shares with self.
pub open spec fn spec_rows_after(entries: Seq<NodeEntry>, self_id: u64, rows: int) -> int
    decreases entries.len(),
{
    if entries.len() == 0 {
        rows
    } else {
        let rest = spec_rows_after(entries.drop_last(), self_id, rows);
        if entries.last().id != self_id && spec_matched_digits(self_id, entries.last().id) + 1
            > rest {
            spec_matched_digits(self_id, entries.last().id) + 1
        } else {
            rest
        }
    }
}

/// What a routing table looks like after a batch of insertions: each cell
/// holds the last batch entry whose id selects it, and otherwise whatever
/// stood there before.
pub open spec fn spec_table_after(
    pre: &RoutingTable,
    post: &RoutingTable,
    entries: Seq<NodeEntry>,
) -> bool {
    &&& post.spec_rows() == spec_rows_after(entries, pre.spec_id(), pre.spec_rows())
    &&& (forall|rr: int, cc: int|
        0 <= rr < post.spec_rows() && 0 <= cc < 16 ==> #[trigger] post.spec_cell(rr, cc) == {
            let w = spec_last_writer(entries, pre.spec_id(), rr, cc);
            if w >= 0 {
                Option::Some(
                    crate::shared::KeyValuePair {
                        key: entries[w].id,
                        value: spec_info_of(entries[w]),
                    },
                )
            } else if rr < pre.spec_rows() {
                pre.spec_cell(rr, cc)
            } else {
                Option::<crate::shared::KeyValuePair<u64, NodeInfo>>::None
            }
        })
}

/// Scanning one more batch entry changes the last writer of exactly the
/// cell that entry selects.
proof fn lemma_last_writer_step(entries: Seq<NodeEntry>, self_id: u64, i: int, r: int, c: int)
    requires
        0 <= i < entries.len(),
    ensures
        spec_last_writer(entries.take(i + 1), self_id, r, c) == if entries[i].id != self_id
            && spec_matched_digits(self_id, entries[i].id) == r && spec_nth_digit(
            entries[i].id,
            r,
        ) == c {
            i
        } else {
            spec_last_writer(entries.take(i), self_id, r, c)
        },
{
    assert(entries.take(i + 1).drop_last() =~= entries.take(i));
    assert(entries.take(i + 1).last() == entries[i]);
}

/// Scanning one more batch entry grows the row count to just past its
/// prefix length when that exceeds the rows so far.
proof fn lemma_rows_after_step(entries: Seq<NodeEntry>, self_id: u64, i: int, rows: int)
    requires
        0 <= i < entries.len(),
    ensures
        spec_rows_after(entries.take(i + 1), self_id, rows) == ({
            let rest = spec_rows_after(entries.take(i), self_id, rows);
            if entries[i].id != self_id && spec_matched_digits(self_id, entries[i].id) + 1
                > rest {
                spec_matched_digits(self_id, entries[i].id) + 1
            } else {
                rest
            }
        }),
{
    assert(entries.take(i + 1).drop_last() =~= entries.take(i));
    assert(entries.take(i + 1).last() == entries[i]);
}

/// A batch never shrinks the table.
proof fn lemma_rows_after_lower_bound(entries: Seq<NodeEntry>, self_id: u64, rows: int)
    ensures
        spec_rows_after(entries, self_id, rows) >= rows,
    decreases entries.len(),
{
    if entries.len() > 0 {
        lemma_rows_after_lower_bound(entries.drop_last(), self_id, rows);
    }
}

/// A cell that some batch entry wrote lies within the rows the batch
/// forces the table to hold.
proof fn lemma_rows_after_cover_writer(
    entries: Seq<NodeEntry>,
    self_id: u64,
    r: int,
    c: int,
    rows: int,
)
    ensures
        spec_last_writer(entries, self_id, r, c) >= 0 ==> spec_rows_after(entries, self_id, rows)
            >= r + 1,
    decreases entries.len(),
{
    if entries.len() > 0 {
        lemma_rows_after_cover_writer(entries.drop_last(), self_id, r, c, rows);
    }
}

/// The last writer of a cell is a valid batch index selecting that cell.
pub proof fn lemma_last_writer_bounds(entries: Seq<NodeEntry>, self_id: u64, r: int, c: int)
    ensures
        -1 <= spec_last_writer(entries, self_id, r, c) < entries.len(),
        spec_last_writer(entries, self_id, r, c) >= 0 ==> {
            let w = spec_last_writer(entries, self_id, r, c);
            &&& entries[w].id != self_id
            &&& spec_matched_digits(self_id, entries[w].id) == r
            &&& spec_nth_digit(entries[w].id, r) == c
        },
    decreases entries.len(),
{
    if entries.len() > 0 {
        lemma_last_writer_bounds(entries.drop_last(), self_id, r, c);
        if !(entries.last().id != self_id && spec_matched_digits(self_id, entries.last().id)
            == r && spec_nth_digit(entries.last().id, r) == c) {
            let w = spec_last_writer(entries.drop_last(), self_id, r, c);
            if w >= 0 {
                assert(entries.drop_last()[w] == entries[w]);
            }
        }
    }
}

/// The wire form of a peer descriptor.
pub open spec fn spec_entry_of(info: NodeInfo) -> NodeEntry {
    NodeEntry { id: info.id, pub_addr: info.pub_addr }
}

/// What merging a routing table into an accumulated entry list guarantees:
/// the result is sorted by id without duplicates; every entry of it came
/// from the input list or from a table cell in a row at or past
/// `matched`; every input entry id survives; and every such table cell's
/// id is represented.
pub open spec fn spec_merged_table(
    t: &RoutingTable,
    matched: int,
    input: Seq<NodeEntry>,
    out: Seq<NodeEntry>,
) -> bool {
    &&& spec_entries_sorted(out)
    &&& (forall|i: int|
        0 <= i < out.len() ==> input.contains(#[trigger] out[i]) || (exists|rr: int, cc: int|
            matched <= rr < t.spec_rows() && 0 <= cc < 16 && (#[trigger] t.spec_cell(rr, cc))
                is Some && out[i] == spec_entry_of(t.spec_cell(rr, cc)->Some_0.value)))
    &&& (forall|j: int| 0 <= j < input.len() ==> spec_has_id(out, (#[trigger] input[j]).id))
    &&& (forall|rr: int, cc: int|
        matched <= rr < t.spec_rows() && 0 <= cc < 16 && (#[trigger] t.spec_cell(rr, cc))
            is Some ==> spec_has_id(out, t.spec_cell(rr, cc)->Some_0.key))
}

/// What handling a join decided: this peer is the terminal hop and
/// answers, or the restamped request travels on.
#[derive(Debug)]
pub enum JoinOutcome {
    Respond(JoinResponse),
    Forward(JoinRequest),
}

impl Node {
    /// Merges this peer's routing-table rows from `matched_digits` onward
    /// into the accumulated entry list of a join request, keeping the list
    /// sorted by id and free of duplicates.
    pub fn merge_routing_table(&self, matched_digits: usize, routing_table: &Vec<NodeEntry>) -> (r:
        Vec<NodeEntry>)
        requires
            self.wf(),
            spec_entries_sorted(routing_table@),
        ensures
            spec_merged_table(&self.data.table, matched_digits as int, routing_table@, r@),
    {
        let ghost t = &self.data.table;
        let ghost input = routing_table@;
        let mut r: Vec<NodeEntry> = clone_entries(routing_table);
        proof {
            crate::table::lemma_routing_table_invariant(&self.data.table);
            assert forall|j: int| 0 <= j < input.len() implies spec_has_id(
                r@,
                (#[trigger] input[j]).id,
            ) by {
                assert(0 <= j < r@.len() && r@[j].id == input[j].id);
            }
        }
        let rows = self.data.table.num_rows();
        let mut rr: usize = matched_digits;
        while rr < rows
            invariant
                self.wf(),
                rows == self.data.table.spec_rows(),
                matched_digits <= rr <= rows || (matched_digits >= rows && rr == matched_digits),
                spec_entries_sorted(r@),
                forall|i: int|
                    0 <= i < r@.len() ==> input.contains(#[trigger] r@[i]) || (exists|
                        r2: int,
                        c2: int,
                    |
                        matched_digits <= r2 < self.data.table.spec_rows() && 0 <= c2 < 16 && (
                        #[trigger] self.data.table.spec_cell(r2, c2)) is Some && r@[i]
                            == spec_entry_of(self.data.table.spec_cell(r2, c2)->Some_0.value)),
                forall|j: int|
                    0 <= j < input.len() ==> spec_has_id(r@, (#[trigger] input[j]).id),
                forall|r2: int, c2: int|
                    matched_digits <= r2 < rr && 0 <= c2 < 16 && (
                    #[trigger] self.data.table.spec_cell(r2, c2)) is Some ==> spec_has_id(
                        r@,
                        self.data.table.spec_cell(r2, c2)->Some_0.key,
                    ),
            decreases rows - rr,
        {
            let mut cc: usize = 0;
            while cc < 16
                invariant
                    self.wf(),
                    rows == self.data.table.spec_rows(),
                    matched_digits <= rr < rows,
                    0 <= cc <= 16,
                    spec_entries_sorted(r@),
                    forall|i: int|
                        0 <= i < r@.len() ==> input.contains(#[trigger] r@[i]) || (exists|
                            r2: int,
                            c2: int,
                        |
                            matched_digits <= r2 < self.data.table.spec_rows() && 0 <= c2 < 16
                                && (#[trigger] self.data.table.spec_cell(r2, c2)) is Some && r@[i]
                                == spec_entry_of(self.data.table.spec_cell(r2, c2)->Some_0.value)),
                    forall|j: int|
                        0 <= j < input.len() ==> spec_has_id(r@, (#[trigger] input[j]).id),
                    forall|r2: int, c2: int|
                        (matched_digits <= r2 < rr && 0 <= c2 < 16 || r2 == rr && 0 <= c2 < cc)
                            && (#[trigger] self.data.table.spec_cell(r2, c2)) is Some
                            ==> spec_has_id(
                            r@,
                            self.data.table.spec_cell(r2, c2)->Some_0.key,
                        ),
                decreases 16 - cc,
            {
                if let Some(info) = self.data.table.cell(rr, cc) {
                    let entry = NodeEntry { id: info.id, pub_addr: info.pub_addr };
                    let ghost pre_r = r@;
                    insert_entry_sorted(&mut r, entry);
                    proof {
                        crate::table::lemma_routing_table_invariant(&self.data.table);
                        assert(self.data.table.spec_cell(rr as int, cc as int) is Some);
                        assert(entry == spec_entry_of(
                            self.data.table.spec_cell(rr as int, cc as int)->Some_0.value,
                        ));
                        assert forall|i: int|
                            0 <= i < r@.len() implies input.contains(#[trigger] r@[i]) || (exists|
                            r2: int,
                            c2: int,
                        |
                            matched_digits <= r2 < self.data.table.spec_rows() && 0 <= c2 < 16
                                && (#[trigger] self.data.table.spec_cell(r2, c2)) is Some && r@[i]
                                == spec_entry_of(
                                self.data.table.spec_cell(r2, c2)->Some_0.value,
                            )) by {
                            if r@[i] == entry {
                                assert(matched_digits as int <= rr as int && (rr as int)
                                    < self.data.table.spec_rows() && 0 <= cc < 16
                                    && self.data.table.spec_cell(rr as int, cc as int) is Some
                                    && r@[i] == spec_entry_of(
                                    self.data.table.spec_cell(rr as int, cc as int)->Some_0.value,
                                ));
                            } else {
                                assert(pre_r.contains(r@[i]));
                                let w = choose|w: int| 0 <= w < pre_r.len() && pre_r[w] == r@[i];
                                assert(input.contains(pre_r[w]) || (exists|r2: int, c2: int|
                                    matched_digits <= r2 < self.data.table.spec_rows() && 0 <= c2
                                        < 16 && (#[trigger] self.data.table.spec_cell(r2, c2))
                                        is Some && pre_r[w] == spec_entry_of(
                                        self.data.table.spec_cell(r2, c2)->Some_0.value,
                                    )));
                            }
                        }
                        assert forall|j: int| 0 <= j < input.len() implies spec_has_id(
                            r@,
                            (#[trigger] input[j]).id,
                        ) by {
                            let w = choose|w: int|
                                0 <= w < pre_r.len() && pre_r[w].id == input[j].id;
                            assert(r@.contains(pre_r[w]));
                            let w2 = choose|w2: int| 0 <= w2 < r@.len() && r@[w2] == pre_r[w];
                            assert(r@[w2].id == input[j].id);
                        }
                        assert forall|r2: int, c2: int|
                            (matched_digits <= r2 < rr as int && 0 <= c2 < 16 || r2 == rr as int
                                && 0 <= c2 < cc as int + 1) && (
                            #[trigger] self.data.table.spec_cell(r2, c2)) is Some implies spec_has_id(
                            r@,
                            self.data.table.spec_cell(r2, c2)->Some_0.key,
                        ) by {
                            if r2 == rr as int && c2 == cc as int {
                                assert(entry.id == self.data.table.spec_cell(
                                    r2,
                                    c2,
                                )->Some_0.key);
                            } else {
                                let w = choose|w: int|
                                    0 <= w < pre_r.len() && pre_r[w].id
                                        == self.data.table.spec_cell(r2, c2)->Some_0.key;
                                assert(r@.contains(pre_r[w]));
                                let w2 = choose|w2: int| 0 <= w2 < r@.len() && r@[w2] == pre_r[w];
                                assert(r@[w2].id == self.data.table.spec_cell(
                                    r2,
                                    c2,
                                )->Some_0.key);
                            }
                        }
                    }
                }
                cc = cc + 1;
            }
            rr = rr + 1;
        }
        r
    }

    /// The leaf set a terminal hop hands a joining peer: the full centered
    /// set, minus the furthest counter-clockwise entry when the set is
    /// full, since the joining peer will occupy that slot.
    pub fn join_leaf_entries(&self) -> (r: Vec<NodeEntry>)
        requires
            self.wf(),
        ensures
            r@ == if self.data.leaf.spec_is_full() {
                self.data.leaf.infos().remove(self.data.leaf.spec_first_idx()).map(
                    |i: int, info: NodeInfo| spec_entry_of(info),
                )
            } else {
                self.data.leaf.infos().map(|i: int, info: NodeInfo| spec_entry_of(info))
            },
    {
        proof {
            crate::leaf::lemma_leaf_views(&self.data.leaf);
        }
        let all = self.data.leaf.get_set();
        let full = self.data.leaf.is_full();
        let skip = if full {
            self.data.leaf.furthest_counter_clockwise_index()
        } else {
            all.len()
        };
        let n = all.len();
        let ghost infos = self.data.leaf.infos();
        let mut r: Vec<NodeEntry> = Vec::new();
        let mut i: usize = 0;
        while i < n
            invariant
                n == infos.len(),
                all@ == infos,
                0 <= i <= n,
                full == self.data.leaf.spec_is_full(),
                full ==> skip == self.data.leaf.spec_first_idx() && skip < n,
                !full ==> skip == n,
                i <= skip ==> r@ == infos.take(i as int).map(
                    |j: int, info: NodeInfo| spec_entry_of(info),
                ),
                i > skip ==> r@ == infos.remove(skip as int).take(i - 1).map(
                    |j: int, info: NodeInfo| spec_entry_of(info),
                ),
            decreases n - i,
        {
            if i != skip {
                let entry = NodeEntry { id: all[i].id, pub_addr: all[i].pub_addr.clone() };
                r.push(entry);
            }
            proof {
                let sk = skip as int;
                if i < skip {
                    assert(infos.take(i + 1).drop_last() =~= infos.take(i as int));
                    assert(r@ =~= infos.take(i + 1).map(
                        |j: int, info: NodeInfo| spec_entry_of(info),
                    ));
                } else if i == skip {
                    assert(infos.remove(sk).take(i as int) =~= infos.take(i as int));
                } else {
                    assert(infos.remove(sk).take(i as int).drop_last() =~= infos.remove(sk).take(
                        i - 1,
                    ));
                    assert(infos.remove(sk).take(i as int).last() == infos[i as int]);
                    assert(r@ =~= infos.remove(sk).take(i as int).map(
                        |j: int, info: NodeInfo| spec_entry_of(info),
                    ));
                }
            }
            i = i + 1;
        }
        proof {
            if full {
                assert(infos.remove(skip as int).take(n - 1) =~= infos.remove(skip as int));
            } else {
                assert(infos.take(n as int) =~= infos);
            }
        }
        r
    }

    /// Handles a join request: when this peer's leaf set names it as the
    /// owner of the joining id it is the terminal hop and answers with its
    /// own identity, the inherited leaf set and the accumulated routing
    /// table; otherwise the request is restamped for forwarding.
    pub fn join_service(&self, req: &JoinRequest) -> (r: JoinOutcome)
        requires
            self.wf(),
            spec_entries_sorted(req.routing_table@),
            req.hops < u32::MAX,
        ensures
            ({
                let leaf = &self.data.leaf;
                let owner_exists = !(leaf.spec_is_full() && spec_owner_idx(leaf.keys(), req.id)
                    == leaf.spec_last_idx());
                let owner = leaf.infos()[spec_owner_idx(leaf.keys(), req.id)];
                if owner_exists && owner.id == self.id {
                    match r {
                        JoinOutcome::Respond(resp) => {
                            &&& resp.id == self.id
                            &&& resp.pub_addr == self.pub_addr
                            &&& resp.hops == req.hops
                            &&& resp.leaf_set@ == if leaf.spec_is_full() {
                                leaf.infos().remove(leaf.spec_first_idx()).map(
                                    |i: int, info: NodeInfo| spec_entry_of(info),
                                )
                            } else {
                                leaf.infos().map(|i: int, info: NodeInfo| spec_entry_of(info))
                            }
                            &&& spec_merged_table(
                                &self.data.table,
                                req.matched_digits as int,
                                req.routing_table@,
                                resp.routing_table@,
                            )
                        },
                        JoinOutcome::Forward(_) => false,
                    }
                } else {
                    match r {
                        JoinOutcome::Forward(fwd) => {
                            &&& fwd.id == req.id
                            &&& fwd.pub_addr == req.pub_addr
                            &&& fwd.matched_digits == spec_matched_digits(self.id, req.id)
                            &&& fwd.hops == req.hops + 1
                            &&& spec_merged_table(
                                &self.data.table,
                                req.matched_digits as int,
                                req.routing_table@,
                                fwd.routing_table@,
                            )
                        },
                        JoinOutcome::Respond(_) => false,
                    }
                }
            }),
    {
        let routing_table = self.merge_routing_table(
            req.matched_digits as usize,
            &req.routing_table,
        );

        if let Some(node) = self.route_with_leaf_set(req.id) {
            if node.id == self.id {
                let leaf_set = self.join_leaf_entries();
                return JoinOutcome::Respond(
                    JoinResponse {
                        id: self.id,
                        pub_addr: self.pub_addr.clone(),
                        hops: req.hops,
                        leaf_set,
                        routing_table,
                    },
                );
            }
        }

        let matched = match get_num_matched_digits(self.id, req.id) {
            Ok(m) => m,
            Err(_) => {
                proof {
                    assert(false);
                }
                0
            },
        };
        JoinOutcome::Forward(
            JoinRequest {
                id: req.id,
                pub_addr: req.pub_addr.clone(),
                hops: req.hops + 1,
                matched_digits: matched,
                routing_table,
            },
        )
    }
}

/// Inserting into a sequence only adds the inserted element.
proof fn lemma_seq_insert_subset(s: Seq<u64>, p: int, key: u64)
    requires
        0 <= p <= s.len(),
    ensures
        forall|k: u64| s.insert(p, key).contains(k) ==> s.contains(k) || k == key,
        s.insert(p, key).contains(key),
{
    s.insert_ensures(p, key);
    assert(s.insert(p, key)[p] == key);
    assert forall|k: u64| s.insert(p, key).contains(k) implies s.contains(k) || k == key by {
        let w = choose|i: int| 0 <= i < s.insert(p, key).len() && s.insert(p, key)[i] == k;
        if w < p {
            assert(s[w] == k);
        } else if w > p {
            assert(s[w - 1] == k);
        }
    }
}

/// Removing from a sequence only removes elements.
proof fn lemma_seq_remove_subset(s: Seq<u64>, p: int)
    requires
        0 <= p < s.len(),
    ensures
        forall|k: u64| s.remove(p).contains(k) ==> s.contains(k),
{
    assert forall|k: u64| s.remove(p).contains(k) implies s.contains(k) by {
        let w = choose|i: int| 0 <= i < s.remove(p).len() && s.remove(p)[i] == k;
        if w < p {
            assert(s[w] == k);
        } else {
            assert(s[w + 1] == k);
        }
    }
}

impl Node {
    /// Handles an arrival announcement: the newly joined peer is merged
    /// into the leaf set when its id lands within the set's arc and is not
    /// already held, and into the routing table; the peer then routes
    /// requests again.
    pub fn announce_arrival_service(&mut self, req: &AnnounceArrivalRequest) -> (r: Result<
        (),
        Error,
    >)
        requires
            old(self).wf(),
        ensures
            r is Ok,
            final(self).wf(),
            final(self).id == old(self).id,
            final(self).pub_addr == old(self).pub_addr,
            final(self).store == old(self).store,
            final(self).state_name == NodeState::RoutingRequests,
            ({
                let leaf = &old(self).data.leaf;
                let owner_exists = !(leaf.spec_is_full() && spec_owner_idx(leaf.keys(), req.id)
                    == leaf.spec_last_idx());
                let owner = leaf.infos()[spec_owner_idx(leaf.keys(), req.id)];
                if owner_exists && owner.id != req.id {
                    final(self).data.leaf.keys().contains(req.id)
                } else {
                    final(self).data.leaf == old(self).data.leaf
                }
            }),
            forall|k: u64|
                final(self).data.leaf.keys().contains(k) ==> old(
                    self,
                ).data.leaf.keys().contains(k) || k == req.id,
            req.id != old(self).id ==> ({
                let row = spec_matched_digits(old(self).id, req.id);
                let col = spec_nth_digit(req.id, row) as int;
                &&& final(self).data.table.spec_rows() == if old(self).data.table.spec_rows()
                    >= row + 1 {
                    old(self).data.table.spec_rows()
                } else {
                    row + 1
                }
                &&& final(self).data.table.spec_cell(row, col) == Option::Some(
                    crate::shared::KeyValuePair {
                        key: req.id,
                        value: NodeInfo { id: req.id, pub_addr: req.pub_addr },
                    },
                )
                &&& (forall|rr: int, cc: int|
                    0 <= rr < final(self).data.table.spec_rows() && 0 <= cc < 16 && !(rr == row
                        && cc == col) ==> #[trigger] final(self).data.table.spec_cell(rr, cc)
                        == if rr < old(self).data.table.spec_rows() {
                        old(self).data.table.spec_cell(rr, cc)
                    } else {
                        Option::<crate::shared::KeyValuePair<u64, NodeInfo>>::None
                    })
            }),
            req.id == old(self).id ==> final(self).data.table == old(self).data.table,
    {
        self.change_state(NodeState::UpdatingConnections);

        let insert_into_leaf = match self.data.leaf.get(req.id) {
            Some(entry) => entry.id != req.id,
            None => false,
        };

        let ghost pre_leaf = self.data.leaf;
        if insert_into_leaf {
            proof {
                crate::leaf::lemma_leaf_views(&self.data.leaf);
                crate::leaf::lemma_pred_idx(self.data.leaf.keys(), req.id);
                crate::leaf::lemma_sorted_contains(self.data.leaf.keys(), req.id);
            }
            let info = NodeInfo { id: req.id, pub_addr: req.pub_addr.clone() };
            match self.data.leaf.insert(req.id, info) {
                Ok(_) => {
                    proof {
                        crate::leaf::lemma_pred_idx(pre_leaf.keys(), req.id);
                        if !pre_leaf.spec_is_full() {
                            lemma_seq_insert_subset(
                                pre_leaf.keys(),
                                spec_pred_idx(pre_leaf.keys(), req.id) + 1,
                                req.id,
                            );
                        } else {
                            let displaced = if pre_leaf.spec_is_cw(
                                spec_owner_idx(pre_leaf.keys(), req.id),
                            ) {
                                pre_leaf.spec_last_idx()
                            } else {
                                pre_leaf.spec_first_idx()
                            };
                            crate::leaf::lemma_leaf_views(&pre_leaf);
                            lemma_seq_remove_subset(pre_leaf.keys(), displaced);
                            crate::leaf::lemma_pred_idx(
                                pre_leaf.keys().remove(displaced),
                                req.id,
                            );
                            lemma_seq_insert_subset(
                                pre_leaf.keys().remove(displaced),
                                spec_pred_idx(pre_leaf.keys().remove(displaced), req.id) + 1,
                                req.id,
                            );
                        }
                    }
                },
                Err(_) => {
                    proof {
                        assert(false);
                    }
                },
            }
        }

        let info = NodeInfo { id: req.id, pub_addr: req.pub_addr.clone() };
        match self.data.table.insert(req.id, info) {
            Ok(_) => {},
            Err(_) => {
                proof {
                    assert(false);
                }
            },
        }

        self.change_state(NodeState::RoutingRequests);
        Ok(())
    }

    /// Inserts a batch of wire entries into the leaf set, in order:
    /// afterwards the held ids and descriptors are the fold of the
    /// displacement rule over the batch. A batch entry that lands outside
    /// the arc of a full set fails the update partway, the entries before
    /// it applied.
    pub fn update_leaf_set(&mut self, entries: &Vec<NodeEntry>) -> (r: Result<(), Error>)
        requires
            old(self).wf(),
        ensures
            final(self).wf(),
            final(self).id == old(self).id,
            final(self).pub_addr == old(self).pub_addr,
            final(self).store == old(self).store,
            final(self).state_name == old(self).state_name,
            final(self).data.table == old(self).data.table,
            final(self).data.leaf.spec_max_size() == old(self).data.leaf.spec_max_size(),
            forall|k: u64|
                final(self).data.leaf.keys().contains(k) ==> old(
                    self,
                ).data.leaf.keys().contains(k) || spec_has_id(entries@, k),
            r is Ok ==> (final(self).data.leaf.keys(), final(self).data.leaf.infos())
                == spec_leaf_fold(
                old(self).data.leaf.keys(),
                old(self).data.leaf.infos(),
                old(self).data.leaf.spec_max_size(),
                old(self).id,
                entries@,
            ),
            r is Err ==> r->Err_0 is Internal && (exists|j: int|
                0 <= j <= entries@.len() && (
                final(self).data.leaf.keys(),
                final(self).data.leaf.infos(),
            ) == spec_leaf_fold(
                    old(self).data.leaf.keys(),
                    old(self).data.leaf.infos(),
                    old(self).data.leaf.spec_max_size(),
                    old(self).id,
                    #[trigger] entries@.take(j),
                )),
    {
        let ghost leaf0 = self.data.leaf;
        let n = entries.len();
        let mut i: usize = 0;
        proof {
            assert(entries@.take(0) =~= Seq::<NodeEntry>::empty());
        }
        while i < n
            invariant
                self.wf(),
                n == entries.len(),
                0 <= i <= n,
                self.id == old(self).id,
                self.pub_addr == old(self).pub_addr,
                self.store == old(self).store,
                self.state_name == old(self).state_name,
                self.data.table == old(self).data.table,
                leaf0 == old(self).data.leaf,
                self.data.leaf.spec_max_size() == leaf0.spec_max_size(),
                self.data.leaf.spec_node_key() == old(self).id,
                forall|k: u64|
                    self.data.leaf.keys().contains(k) ==> old(self).data.leaf.keys().contains(k)
                        || spec_has_id(entries@, k),
                (self.data.leaf.keys(), self.data.leaf.infos()) == spec_leaf_fold(
                    leaf0.keys(),
                    leaf0.infos(),
                    leaf0.spec_max_size(),
                    old(self).id,
                    entries@.take(i as int),
                ),
            decreases n - i,
        {
            let ghost pre_leaf = self.data.leaf;
            let entry = &entries[i];
            let info = NodeInfo { id: entry.id, pub_addr: entry.pub_addr.clone() };
            let ghost ginfo = info;
            let ghost eid = entry.id;
            match self.data.leaf.insert(entry.id, info) {
                Ok(_) => {},
                Err(e) => {
                    proof {
                        assert(0 <= i as int <= entries@.len() && (
                        self.data.leaf.keys(),
                        self.data.leaf.infos(),
                        ) == spec_leaf_fold(
                            leaf0.keys(),
                            leaf0.infos(),
                            leaf0.spec_max_size(),
                            old(self).id,
                            entries@.take(i as int),
                        ));
                    }
                    return Err(e);
                },
            }
            proof {
                assert(ginfo == spec_info_of(entries@[i as int]));
                assert(entries@.take(i + 1).drop_last() =~= entries@.take(i as int));
                assert(entries@.take(i + 1).last() == entries@[i as int]);
                crate::leaf::lemma_leaf_views(&pre_leaf);
                crate::leaf::lemma_leaf_edge_formulas(&pre_leaf);
                crate::leaf::lemma_pred_idx(pre_leaf.keys(), eid);
                if !pre_leaf.keys().contains(eid) && !pre_leaf.spec_is_full() {
                    lemma_seq_insert_subset(
                        pre_leaf.keys(),
                        spec_pred_idx(pre_leaf.keys(), eid) + 1,
                        eid,
                    );
                } else if !pre_leaf.keys().contains(eid) && pre_leaf.spec_is_full() {
                    let displaced = if pre_leaf.spec_is_cw(spec_owner_idx(pre_leaf.keys(), eid)) {
                        pre_leaf.spec_last_idx()
                    } else {
                        pre_leaf.spec_first_idx()
                    };
                    lemma_seq_remove_subset(pre_leaf.keys(), displaced);
                    crate::leaf::lemma_pred_idx(pre_leaf.keys().remove(displaced), eid);
                    lemma_seq_insert_subset(
                        pre_leaf.keys().remove(displaced),
                        spec_pred_idx(pre_leaf.keys().remove(displaced), eid) + 1,
                        eid,
                    );
                }
                assert(spec_has_id(entries@, eid));
                assert((self.data.leaf.keys(), self.data.leaf.infos()) == spec_leaf_step(
                    pre_leaf.keys(),
                    pre_leaf.infos(),
                    pre_leaf.spec_max_size(),
                    old(self).id,
                    entries@[i as int],
                ));
            }
            i = i + 1;
        }
        proof {
            assert(entries@.take(n as int) =~= entries@);
        }
        Ok(())
    }

    /// Inserts a batch of wire entries into the routing table, in order:
    /// afterwards each cell holds the last batch entry whose id selects
    /// it, and every other cell is as before.
    pub fn update_routing_table(&mut self, entries: &Vec<NodeEntry>) -> (r: Result<(), Error>)
        requires
            old(self).wf(),
        ensures
            r is Ok,
            final(self).wf(),
            final(self).id == old(self).id,
            final(self).pub_addr == old(self).pub_addr,
            final(self).store == old(self).store,
            final(self).state_name == old(self).state_name,
            final(self).data.leaf == old(self).data.leaf,
            final(self).data.table.spec_id() == old(self).data.table.spec_id(),
            spec_table_after(&old(self).data.table, &final(self).data.table, entries@),
    {
        let ghost pre_table = self.data.table;
        let n = entries.len();
        let mut i: usize = 0;
        proof {
            assert(entries@.take(0) =~= Seq::<NodeEntry>::empty());
            assert forall|rr: int, cc: int|
                0 <= rr < self.data.table.spec_rows() && 0 <= cc < 16 implies #[trigger] self.data.table.spec_cell(
                rr,
                cc,
            ) == {
                let w = spec_last_writer(entries@.take(0), pre_table.spec_id(), rr, cc);
                if w >= 0 {
                    Option::Some(
                        crate::shared::KeyValuePair {
                            key: entries@.take(0)[w].id,
                            value: spec_info_of(entries@.take(0)[w]),
                        },
                    )
                } else if rr < pre_table.spec_rows() {
                    pre_table.spec_cell(rr, cc)
                } else {
                    Option::<crate::shared::KeyValuePair<u64, NodeInfo>>::None
                }
            } by {}
        }
        while i < n
            invariant
                self.wf(),
                n == entries.len(),
                0 <= i <= n,
                self.id == old(self).id,
                self.pub_addr == old(self).pub_addr,
                self.store == old(self).store,
                self.state_name == old(self).state_name,
                self.data.leaf == old(self).data.leaf,
                pre_table == old(self).data.table,
                self.data.table.spec_id() == pre_table.spec_id(),
                spec_table_after(&pre_table, &self.data.table, entries@.take(i as int)),
            decreases n - i,
        {
            let ghost mid = self.data.table;
            let entry = &entries[i];
            let info = NodeInfo { id: entry.id, pub_addr: entry.pub_addr.clone() };
            let ghost ginfo = info;
            let ghost eid = entry.id;
            match self.data.table.insert(entry.id, info) {
                Ok(_) => {},
                Err(_) => {
                    proof {
                        assert(false);
                    }
                },
            }
            proof {
                let sid = pre_table.spec_id();
                assert(ginfo == spec_info_of(entries@[i as int]));
                crate::util::lemma_matched_digits(sid, eid);
                lemma_rows_after_step(entries@, sid, i as int, pre_table.spec_rows());
                lemma_rows_after_lower_bound(entries@.take(i as int), sid, pre_table.spec_rows());
                if eid == sid {
                    assert forall|rr: int, cc: int|
                        0 <= rr < self.data.table.spec_rows() && 0 <= cc
                            < 16 implies #[trigger] self.data.table.spec_cell(rr, cc) == {
                        let w = spec_last_writer(entries@.take(i + 1), sid, rr, cc);
                        if w >= 0 {
                            Option::Some(
                                crate::shared::KeyValuePair {
                                    key: entries@.take(i + 1)[w].id,
                                    value: spec_info_of(entries@.take(i + 1)[w]),
                                },
                            )
                        } else if rr < pre_table.spec_rows() {
                            pre_table.spec_cell(rr, cc)
                        } else {
                            Option::<crate::shared::KeyValuePair<u64, NodeInfo>>::None
                        }
                    } by {
                        lemma_last_writer_step(entries@, sid, i as int, rr, cc);
                        lemma_last_writer_bounds(entries@.take(i as int), sid, rr, cc);
                        let w = spec_last_writer(entries@.take(i as int), sid, rr, cc);
                        if w >= 0 {
                            assert(entries@.take(i + 1)[w] == entries@.take(i as int)[w]);
                        }
                    }
                } else {
                    let row = spec_matched_digits(sid, eid);
                    let col = spec_nth_digit(eid, row) as int;
                    assert forall|rr: int, cc: int|
                        0 <= rr < self.data.table.spec_rows() && 0 <= cc
                            < 16 implies #[trigger] self.data.table.spec_cell(rr, cc) == {
                        let w = spec_last_writer(entries@.take(i + 1), sid, rr, cc);
                        if w >= 0 {
                            Option::Some(
                                crate::shared::KeyValuePair {
                                    key: entries@.take(i + 1)[w].id,
                                    value: spec_info_of(entries@.take(i + 1)[w]),
                                },
                            )
                        } else if rr < pre_table.spec_rows() {
                            pre_table.spec_cell(rr, cc)
                        } else {
                            Option::<crate::shared::KeyValuePair<u64, NodeInfo>>::None
                        }
                    } by {
                        lemma_last_writer_step(entries@, sid, i as int, rr, cc);
                        lemma_last_writer_bounds(entries@.take(i as int), sid, rr, cc);
                        let w0 = spec_last_writer(entries@.take(i as int), sid, rr, cc);
                        if w0 >= 0 {
                            assert(entries@.take(i + 1)[w0] == entries@.take(i as int)[w0]);
                        }
                        if rr == row && cc == col {
                            assert(spec_last_writer(entries@.take(i + 1), sid, rr, cc)
                                == i as int);
                            assert(entries@.take(i + 1)[i as int] == entries@[i as int]);
                            assert(self.data.table.spec_cell(rr, cc) == Option::Some(
                                crate::shared::KeyValuePair { key: eid, value: ginfo },
                            ));
                            assert(ginfo == spec_info_of(entries@.take(i + 1)[i as int]));
                        } else {
                            assert(spec_last_writer(entries@.take(i + 1), sid, rr, cc) == w0);
                            assert(self.data.table.spec_cell(rr, cc) == if rr
                                < mid.spec_rows() {
                                mid.spec_cell(rr, cc)
                            } else {
                                Option::<crate::shared::KeyValuePair<u64, NodeInfo>>::None
                            });
                            if rr < mid.spec_rows() {
                                assert(mid.spec_cell(rr, cc) == {
                                    if w0 >= 0 {
                                        Option::Some(
                                            crate::shared::KeyValuePair {
                                                key: entries@.take(i as int)[w0].id,
                                                value: spec_info_of(entries@.take(i as int)[w0]),
                                            },
                                        )
                                    } else if rr < pre_table.spec_rows() {
                                        pre_table.spec_cell(rr, cc)
                                    } else {
                                        Option::<crate::shared::KeyValuePair<u64, NodeInfo>>::None
                                    }
                                });
                            } else {
                                lemma_rows_after_cover_writer(
                                    entries@.take(i as int),
                                    sid,
                                    rr,
                                    cc,
                                    pre_table.spec_rows(),
                                );
                                assert(w0 == -1);
                                assert(rr >= pre_table.spec_rows());
                            }
                        }
                    }
                }
            }
            i = i + 1;
        }
        proof {
            assert(entries@.take(n as int) =~= entries@);
        }
        Ok(())
    }

    /// Installs a peer's inherited routing state after a join: the batches
    /// of routing-table and leaf-set entries are merged in while the peer
    /// updates its connections, and it routes requests once both are in.
    pub fn route_with_state(&mut self, leaf: Vec<NodeInfo>, table: Vec<NodeInfo>) -> (r: Result<
        (),
        Error,
    >)
        requires
            old(self).wf(),
        ensures
            final(self).wf(),
            final(self).id == old(self).id,
            final(self).pub_addr == old(self).pub_addr,
            final(self).store == old(self).store,
            forall|k: u64|
                final(self).data.leaf.keys().contains(k) ==> old(
                    self,
                ).data.leaf.keys().contains(k) || spec_infos_have_id(leaf@, k),
            spec_table_after(
                &old(self).data.table,
                &final(self).data.table,
                table@.map(|i: int, info: NodeInfo| spec_entry_of(info)),
            ),
            r is Ok ==> (final(self).data.leaf.keys(), final(self).data.leaf.infos())
                == spec_leaf_fold(
                old(self).data.leaf.keys(),
                old(self).data.leaf.infos(),
                old(self).data.leaf.spec_max_size(),
                old(self).id,
                leaf@.map(|i: int, info: NodeInfo| spec_entry_of(info)),
            ),
            r is Ok ==> final(self).state_name == NodeState::RoutingRequests,
            r is Err ==> final(self).state_name == NodeState::UpdatingConnections && r->Err_0
                is Internal,
    {
        let ghost gleaf = leaf@;
        let ghost gtable = table@;
        self.change_state(NodeState::UpdatingConnections);

        let table_entries = infos_to_entries(table);
        proof {
            assert(table_entries@ =~= gtable.map(|i: int, info: NodeInfo| spec_entry_of(info)));
        }
        match self.update_routing_table(&table_entries) {
            Ok(_) => {},
            Err(_) => {
                proof {
                    assert(false);
                }
            },
        }

        let leaf_entries = infos_to_entries(leaf);
        proof {
            assert(leaf_entries@ =~= gleaf.map(|i: int, info: NodeInfo| spec_entry_of(info)));
        }
        let ghost mid_leaf_keys = self.data.leaf.keys();
        let result = self.update_leaf_set(&leaf_entries);
        proof {
            assert forall|k: u64|
                self.data.leaf.keys().contains(k) implies old(self).data.leaf.keys().contains(k)
                || spec_infos_have_id(leaf@, k) by {
                if !mid_leaf_keys.contains(k) {
                    assert(spec_has_id(leaf_entries@, k));
                    let w = choose|i: int|
                        0 <= i < leaf_entries@.len() && (#[trigger] leaf_entries@[i]).id == k;
                    assert(0 <= w < leaf_entries@.len() && leaf_entries@[w].id == k);
                    assert(leaf_entries@[w] == spec_entry_of(leaf@[w]));
                    assert(leaf@[w].id == k);
                }
            }
        }
        match result {
            Ok(_) => {},
            Err(e) => {
                return Err(e);
            },
        }

        self.change_state(NodeState::RoutingRequests);
        Ok(())
    }

    /// Reports this peer's id.
    pub fn get_node_id_service(&self) -> (r: GetNodeIdResponse)
        ensures
            r.id == self.id,
    {
        GetNodeIdResponse { id: self.id }
    }

    /// Selects the stored entries this peer hands off to the peer with the
    /// requesting id: exactly those whose key falls outside the clockwise
    /// range from this peer's id to the requester's.
    pub fn transfer_keys_service(&self, req: &TransferKeysRequest) -> (r: Vec<(u64, Vec<u8>)>)
        requires
            self.wf(),
        ensures
            r@.map(|i: int, e: (u64, Vec<u8>)| (e.0, e.1@)) == self.store.entries_seq().filter(
                |e: (u64, Seq<u8>)| !crate::ring::spec_is_in_range(self.id, req.id, e.0),
            ),
    {
        self.store.get_entries(self.id, req.id)
    }

    /// Installs a stream of transferred pairs into the store, in order:
    /// afterwards the store holds exactly what writing each pair in turn
    /// would leave.
    pub fn install_transferred(&mut self, entries: &Vec<KeyValueEntry>)
        requires
            old(self).wf(),
        ensures
            final(self).wf(),
            final(self).same_routing_state(old(self)),
            final(self).state_name == old(self).state_name,
            final(self).store@ == spec_install(
                old(self).store@,
                entries@.map(|i: int, e: KeyValueEntry| (e.key, e.value@)),
            ),
    {
        let ghost all = entries@.map(|i: int, e: KeyValueEntry| (e.key, e.value@));
        let n = entries.len();
        let mut i: usize = 0;
        proof {
            assert(all.take(0) =~= Seq::<(u64, Seq<u8>)>::empty());
        }
        while i < n
            invariant
                self.wf(),
                all == entries@.map(|i: int, e: KeyValueEntry| (e.key, e.value@)),
                n == entries.len(),
                0 <= i <= n,
                self.same_routing_state(old(self)),
                self.state_name == old(self).state_name,
                self.store@ == spec_install(old(self).store@, all.take(i as int)),
            decreases n - i,
        {
            let entry = &entries[i];
            self.store.set(&entry.key, entry.value.as_slice());
            proof {
                assert(all.take(i + 1).drop_last() =~= all.take(i as int));
                assert(all.take(i + 1).last() == all[i as int]);
            }
            i = i + 1;
        }
        proof {
            assert(all.take(n as int) =~= all);
        }
    }
}

/// Whether a descriptor is one of the leaf set's entries on the given side
/// of self, other than self and other than the failed id.
pub open spec fn spec_leaf_candidate(
    leaf: &LeafSet,
    e: NodeInfo,
    failed_id: u64,
    side: bool,
) -> bool {
    exists|j: int|
        0 <= j < leaf.keys().len() && e == leaf.infos()[j] && j != leaf.spec_node_idx()
            && leaf.keys()[j] != failed_id && (#[trigger] leaf.spec_is_cw(j)) == side
}

/// Whether a descriptor sits in some occupied routing-table cell at or past
/// the given row, under an id other than the failed one.
pub open spec fn spec_table_candidate(
    t: &RoutingTable,
    e: NodeInfo,
    row: int,
    failed_id: u64,
) -> bool {
    exists|rr: int, cc: int|
        row <= rr < t.spec_rows() && 0 <= cc < 16 && (#[trigger] t.spec_cell(rr, cc)) is Some
            && t.spec_cell(rr, cc)->Some_0.value == e && t.spec_cell(rr, cc)->Some_0.key
            != failed_id
}

/// How a leaf repair proceeds: the set is already consistent again, or the
/// listed surviving neighbors on the failed entry's side should be polled
/// for replacements.
#[derive(Debug)]
pub enum LeafRepairPlan {
    Repaired,
    Poll(Vec<NodeInfo>),
}

/// Where a routing-table repair looks for a replacement: the vacated cell,
/// and the surviving table entries to ask for their entry at that cell.
#[derive(Debug)]
pub struct TableRepairPlan {
    pub row: u32,
    pub column: u32,
    pub candidates: Vec<NodeInfo>,
}

impl Node {
    /// Begins repair of a failed leaf entry: the entry is removed; a set
    /// that was not full is already consistent again, while a full set
    /// yields the surviving entries on the failed entry's side of self, to
    /// be polled for replacements while the peer updates its connections.
    /// Removing self, and repairing an id that is not held, are refused.
    pub fn fix_leaf_entry(&mut self, failed: &NodeInfo) -> (r: Result<LeafRepairPlan, Error>)
        requires
            old(self).wf(),
        ensures
            final(self).wf(),
            final(self).id == old(self).id,
            final(self).pub_addr == old(self).pub_addr,
            final(self).store == old(self).store,
            final(self).data.table == old(self).data.table,
            match r {
                Ok(plan) => {
                    &&& old(self).data.leaf.keys().contains(failed.id)
                    &&& failed.id != old(self).id
                    &&& final(self).data.leaf.keys() == old(self).data.leaf.keys().remove(
                        spec_pred_idx(old(self).data.leaf.keys(), failed.id),
                    )
                    &&& match plan {
                        LeafRepairPlan::Repaired => {
                            &&& !old(self).data.leaf.spec_is_full()
                            &&& final(self).state_name == NodeState::RoutingRequests
                        },
                        LeafRepairPlan::Poll(candidates) => {
                            &&& old(self).data.leaf.spec_is_full()
                            &&& final(self).state_name == NodeState::UpdatingConnections
                            &&& ({
                                let leaf = &old(self).data.leaf;
                                let fidx = spec_pred_idx(leaf.keys(), failed.id);
                                let side = leaf.spec_is_cw(fidx);
                                forall|i: int|
                                    0 <= i < candidates@.len() ==> spec_leaf_candidate(
                                        leaf,
                                        #[trigger] candidates@[i],
                                        failed.id,
                                        side,
                                    )
                            })
                        },
                    }
                },
                Err(e) => {
                    &&& e is Internal
                    &&& (failed.id == old(self).id || !old(self).data.leaf.keys().contains(
                        failed.id,
                    ))
                    &&& final(self).data.leaf == old(self).data.leaf
                },
            },
    {
        self.change_state(NodeState::UpdatingConnections);
        proof {
            crate::leaf::lemma_leaf_views(&self.data.leaf);
            crate::leaf::lemma_sorted_contains(self.data.leaf.keys(), failed.id);
            crate::leaf::lemma_pred_idx(self.data.leaf.keys(), failed.id);
        }

        let full = self.data.leaf.is_full();

        if !full {
            match self.data.leaf.remove(failed.id) {
                Ok(_) => {},
                Err(e) => {
                    self.change_state(NodeState::RoutingRequests);
                    return Err(e);
                },
            }
            self.change_state(NodeState::RoutingRequests);
            return Ok(LeafRepairPlan::Repaired);
        }

        let fidx = match self.data.leaf.position_of(failed.id) {
            Some(i) => i,
            None => {
                self.change_state(NodeState::RoutingRequests);
                return Err(Error::Internal("cannot find element with key".to_owned()));
            },
        };
        if fidx == self.data.leaf.node_index() {
            self.change_state(NodeState::RoutingRequests);
            return Err(Error::Internal("cannot remove node from leaf set".to_owned()));
        }
        let side = match self.data.leaf.is_clockwise_neighbor(fidx) {
            Ok(b) => b,
            Err(_) => {
                proof {
                    assert(false);
                }
                true
            },
        };

        let ghost pre_leaf = self.data.leaf;
        let node_idx = self.data.leaf.node_index();
        let all = self.data.leaf.get_set();
        let n = all.len();
        let mut candidates: Vec<NodeInfo> = Vec::new();
        let mut j: usize = 0;
        while j < n
            invariant
                self.wf(),
                self.data.leaf == pre_leaf,
                pre_leaf.wf(),
                pre_leaf.spec_is_full(),
                all@ == pre_leaf.infos(),
                n == pre_leaf.keys().len(),
                n == pre_leaf.infos().len(),
                0 <= j <= n,
                node_idx == pre_leaf.spec_node_idx(),
                forall|i: int|
                    0 <= i < candidates@.len() ==> spec_leaf_candidate(
                        &pre_leaf,
                        #[trigger] candidates@[i],
                        failed.id,
                        side,
                    ),
            decreases n - j,
        {
            proof {
                crate::leaf::lemma_leaf_views(&pre_leaf);
            }
            if j != node_idx && all[j].id != failed.id {
                let on_side = match self.data.leaf.is_clockwise_neighbor(j) {
                    Ok(b) => b,
                    Err(_) => {
                        proof {
                            assert(false);
                        }
                        true
                    },
                };
                if on_side == side {
                    let ghost pre_c = candidates@;
                    candidates.push(all[j].clone());
                    proof {
                        assert(pre_leaf.infos()[j as int].id == pre_leaf.keys()[j as int]);
                        assert forall|i: int|
                            0 <= i < candidates@.len() implies spec_leaf_candidate(
                            &pre_leaf,
                            #[trigger] candidates@[i],
                            failed.id,
                            side,
                        ) by {
                            if i < pre_c.len() {
                                assert(candidates@[i] == pre_c[i]);
                            } else {
                                assert(candidates@[i] == pre_leaf.infos()[j as int]);
                                assert(0 <= j as int && (j as int) < pre_leaf.keys().len()
                                    && candidates@[i] == pre_leaf.infos()[j as int] && j as int
                                    != pre_leaf.spec_node_idx() && pre_leaf.keys()[j as int]
                                    != failed.id && pre_leaf.spec_is_cw(j as int) == side);
                            }
                        }
                    }
                }
            }
            j = j + 1;
        }

        match self.data.leaf.remove(failed.id) {
            Ok(_) => {},
            Err(_) => {
                proof {
                    assert(false);
                }
            },
        }

        Ok(LeafRepairPlan::Poll(candidates))
    }

    /// Begins repair of a failed routing-table entry: the entry's cell is
    /// vacated, and the surviving table entries in its row and beyond are
    /// handed back, to be asked for their own entry at that cell.
    pub fn fix_table_entry(&mut self, failed: &NodeInfo) -> (r: TableRepairPlan)
        requires
            old(self).wf(),
            failed.id != old(self).id,
        ensures
            final(self).wf(),
            final(self).id == old(self).id,
            final(self).pub_addr == old(self).pub_addr,
            final(self).store == old(self).store,
            final(self).data.leaf == old(self).data.leaf,
            final(self).state_name == NodeState::UpdatingConnections,
            final(self).data.table.spec_id() == old(self).data.table.spec_id(),
            r.row == spec_matched_digits(old(self).id, failed.id),
            r.column == spec_nth_digit(failed.id, r.row as int),
            (failed.id != old(self).id && spec_matched_digits(old(self).id, failed.id) < old(
                self,
            ).data.table.spec_rows()) ==> final(self).data.table.spec_cell(
                r.row as int,
                r.column as int,
            ) is None,
            forall|i: int|
                0 <= i < r.candidates@.len() ==> spec_table_candidate(
                    &final(self).data.table,
                    #[trigger] r.candidates@[i],
                    r.row as int,
                    failed.id,
                ),
    {
        self.change_state(NodeState::UpdatingConnections);

        match self.data.table.remove(failed.id) {
            Ok(_) => {},
            Err(_) => {
                proof {
                    assert(false);
                }
            },
        }

        let row = match get_num_matched_digits(self.id, failed.id) {
            Ok(m) => m,
            Err(_) => {
                proof {
                    assert(false);
                }
                0
            },
        };
        proof {
            crate::util::lemma_matched_digits(self.id, failed.id);
            crate::util::lemma_matched_digits_full_iff_equal(self.id, failed.id);
        }
        let column = match crate::util::get_nth_digit_in_u64_hex(failed.id, row as usize) {
            Ok(d) => d,
            Err(_) => {
                proof {
                    assert(false);
                }
                0
            },
        };

        let rows = self.data.table.num_rows();
        let mut candidates: Vec<NodeInfo> = Vec::new();
        let mut rr: usize = row as usize;
        while rr < rows
            invariant
                self.wf(),
                rows == self.data.table.spec_rows(),
                row as usize <= rr <= rows || (row as usize >= rows && rr == row as usize),
                forall|i: int|
                    0 <= i < candidates@.len() ==> spec_table_candidate(
                        &self.data.table,
                        #[trigger] candidates@[i],
                        row as int,
                        failed.id,
                    ),
            decreases rows - rr,
        {
            let mut cc: usize = 0;
            while cc < 16
                invariant
                    self.wf(),
                    rows == self.data.table.spec_rows(),
                    row as usize <= rr < rows,
                    0 <= cc <= 16,
                    forall|i: int|
                        0 <= i < candidates@.len() ==> spec_table_candidate(
                            &self.data.table,
                            #[trigger] candidates@[i],
                            row as int,
                            failed.id,
                        ),
                decreases 16 - cc,
            {
                if let Some(info) = self.data.table.cell(rr, cc) {
                    if info.id != failed.id {
                        let ghost pre_c = candidates@;
                        proof {
                            crate::table::lemma_routing_table_invariant(&self.data.table);
                        }
                        candidates.push(info);
                        proof {
                            assert(candidates@[pre_c.len() as int]
                                == self.data.table.spec_cell(rr as int, cc as int)->Some_0.value);
                            assert(self.data.table.spec_cell(rr as int, cc as int)->Some_0.key
                                != failed.id);
                            assert forall|i: int|
                                0 <= i < candidates@.len() implies spec_table_candidate(
                                &self.data.table,
                                #[trigger] candidates@[i],
                                row as int,
                                failed.id,
                            ) by {
                                if i < pre_c.len() {
                                    assert(candidates@[i] == pre_c[i]);
                                } else {
                                    assert(candidates@[i] == self.data.table.spec_cell(
                                        rr as int,
                                        cc as int,
                                    )->Some_0.value);
                                    assert(row as int <= rr as int && (rr as int)
                                        < self.data.table.spec_rows() && 0 <= cc as int && (
                                    cc as int) < 16 && self.data.table.spec_cell(
                                        rr as int,
                                        cc as int,
                                    ) is Some && self.data.table.spec_cell(
                                        rr as int,
                                        cc as int,
                                    )->Some_0.key != failed.id);
                                }
                            }
                        }
                    }
                }
                cc = cc + 1;
            }
            rr = rr + 1;
        }

        TableRepairPlan { row, column, candidates }
    }

    /// Decides whether a fix-leaf-set notification concerns this peer: only
    /// an id it actually holds, other than its own, needs repair.
    pub fn fix_leaf_set_service(&self, id: u64) -> (r: bool)
        requires
            self.wf(),
        ensures
            r == (self.data.leaf.keys().contains(id) && id != self.id),
    {
        if id == self.id {
            return false;
        }
        match self.data.leaf.position_of(id) {
            Some(_) => true,
            None => false,
        }
    }

    /// Reports this peer's id and its full centered leaf set.
    pub fn get_node_state_service(&self) -> (r: GetNodeStateResponse)
        requires
            self.wf(),
        ensures
            r.id == self.id,
            r.leaf_set@ == self.data.leaf.infos().map(|i: int, info: NodeInfo| spec_entry_of(info)),
    {
        let all = self.data.leaf.get_set();
        GetNodeStateResponse { id: self.id, leaf_set: infos_to_entries_map(all) }
    }

    /// Reports the entry in one routing-table cell, if the row is
    /// materialized and the cell occupied and addressable.
    pub fn get_node_table_entry_service(&self, req: &GetNodeTableEntryRequest) -> (r:
        GetNodeTableEntryResponse)
        requires
            self.wf(),
        ensures
            ({
                let row = req.row as int;
                let col = req.column as int;
                if 0 <= row < self.data.table.spec_rows() && 0 <= col < 16 {
                    match self.data.table.spec_cell(row, col) {
                        Option::Some(kv) => r.node == Option::Some(spec_entry_of(kv.value)),
                        Option::None => r.node is None,
                    }
                } else {
                    r.node is None
                }
            }),
    {
        if req.column >= 16 {
            return GetNodeTableEntryResponse { node: None };
        }
        let rows = self.data.table.num_rows();
        if req.row as usize >= rows {
            return GetNodeTableEntryResponse { node: None };
        }
        match self.data.table.cell(req.row as usize, req.column as usize) {
            Some(info) => GetNodeTableEntryResponse {
                node: Some(NodeEntry { id: info.id, pub_addr: info.pub_addr }),
            },
            None => GetNodeTableEntryResponse { node: None },
        }
    }
}

/// Converts peer descriptors to wire entries, keeping the mapping exact.
fn infos_to_entries_map(v: Vec<NodeInfo>) -> (r: Vec<NodeEntry>)
    ensures
        r@ == v@.map(|i: int, info: NodeInfo| spec_entry_of(info)),
{
    let n = v.len();
    let mut r: Vec<NodeEntry> = Vec::new();
    let mut i: usize = 0;
    while i < n
        invariant
            n == v.len(),
            0 <= i <= n,
            r@ == v@.take(i as int).map(|j: int, info: NodeInfo| spec_entry_of(info)),
        decreases n - i,
    {
        let entry = NodeEntry { id: v[i].id, pub_addr: v[i].pub_addr.clone() };
        r.push(entry);
        proof {
            assert(v@.take(i + 1).drop_last() =~= v@.take(i as int));
            assert(r@ =~= v@.take(i + 1).map(|j: int, info: NodeInfo| spec_entry_of(info)));
        }
        i = i + 1;
    }
    proof {
        assert(v@.take(n as int) =~= v@);
    }
    r
}

/// Writing a value under a key and then reading that key returns exactly
/// the written value: a store that a query left as `m.insert(key, value)`
/// answers a following read of `key` with `value`.
pub proof fn lemma_set_then_get(m: Map<u64, Seq<u8>>, key: u64, value: Seq<u8>)
    ensures
        m.insert(key, value).contains_key(key),
        m.insert(key, value)[key] == value,
{
}

/// Deleting a key and then reading it finds nothing: the read of `key`
/// against the store a delete left as `m.remove(key)` reports the key as
/// missing.
pub proof fn lemma_delete_then_get(m: Map<u64, Seq<u8>>, key: u64)
    ensures
        !m.remove(key).contains_key(key),
{
}

/// Writing a key twice leaves the second value in the store, and the
/// second write returns the first value as the prior one.
pub proof fn lemma_set_twice(m: Map<u64, Seq<u8>>, key: u64, v1: Seq<u8>, v2: Seq<u8>)
    ensures
        m.insert(key, v1).contains_key(key),
        m.insert(key, v1)[key] == v1,
        m.insert(key, v1).insert(key, v2)[key] == v2,
{
}

/// Converts peer descriptors to wire entries.
fn infos_to_entries(v: Vec<NodeInfo>) -> (r: Vec<NodeEntry>)
    ensures
        r@.len() == v@.len(),
        forall|i: int| 0 <= i < v@.len() ==> (#[trigger] r@[i]) == spec_entry_of(v@[i]),
{
    let n = v.len();
    let mut r: Vec<NodeEntry> = Vec::new();
    let mut i: usize = 0;
    while i < n
        invariant
            n == v.len(),
            0 <= i <= n,
            r@.len() == i,
            forall|j: int| 0 <= j < i ==> (#[trigger] r@[j]) == spec_entry_of(v@[j]),
        decreases n - i,
    {
        let entry = NodeEntry { id: v[i].id, pub_addr: v[i].pub_addr.clone() };
        r.push(entry);
        i = i + 1;
    }
    r
}

/// Copies a list of wire entries.
fn clone_entries(v: &Vec<NodeEntry>) -> (r: Vec<NodeEntry>)
    ensures
        r@ == v@,
{
    let n = v.len();
    let mut r: Vec<NodeEntry> = Vec::new();
    let mut i: usize = 0;
    while i < n
        invariant
            n == v.len(),
            0 <= i <= n,
            r@ == v@.take(i as int),
        decreases n - i,
    {
        r.push(v[i].clone());
        proof {
            assert(r@ =~= v@.take(i + 1));
        }
        i = i + 1;
    }
    proof {
        assert(v@.take(n as int) =~= v@);
    }
    r
}

/// Inserts a wire entry into a sorted list at its id's position; an id
/// already present keeps its existing entry.
fn insert_entry_sorted(v: &mut Vec<NodeEntry>, entry: NodeEntry)
    requires
        spec_entries_sorted(old(v)@),
    ensures
        spec_entries_sorted(final(v)@),
        forall|i: int|
            0 <= i < final(v)@.len() ==> old(v)@.contains(#[trigger] final(v)@[i]) || final(v)@[i]
                == entry,
        forall|j: int| 0 <= j < old(v)@.len() ==> final(v)@.contains(#[trigger] old(v)@[j]),
        spec_has_id(final(v)@, entry.id),
{
    let n = v.len();
    let mut found = false;
    let mut pred: usize = 0;
    let mut i: usize = 0;
    while i < n
        invariant
            spec_entries_sorted(v@),
            v == old(v),
            n == v.len(),
            0 <= i <= n,
            found ==> pred < i && v@[pred as int].id <= entry.id,
            found ==> forall|j: int| pred < j < i ==> (#[trigger] v@[j]).id > entry.id,
            !found ==> forall|j: int| 0 <= j < i ==> (#[trigger] v@[j]).id > entry.id,
        decreases n - i,
    {
        if v[i].id <= entry.id {
            pred = i;
            found = true;
        }
        i = i + 1;
    }

    if found && v[pred].id == entry.id {
        proof {
            assert(v@.contains(v@[pred as int]));
        }
        return ;
    }

    let p = if found {
        pred + 1
    } else {
        0
    };
    let ghost pre = v@;
    v.insert(p, entry);
    proof {
        pre.insert_ensures(p as int, entry);
        assert(v@[p as int] == entry);
        assert(forall|j: int| 0 <= j < p ==> (#[trigger] pre[j]).id < entry.id);
        assert(forall|j: int| p <= j < pre.len() ==> (#[trigger] pre[j]).id > entry.id);
        assert forall|a: int, b: int| 0 <= a < b < v@.len() implies v@[a].id < v@[b].id by {
            if a < p {
                assert(v@[a] == pre[a]);
            } else if a > p {
                assert(v@[a] == pre[a - 1]);
            }
            if b < p {
                assert(v@[b] == pre[b]);
            } else if b > p {
                assert(v@[b] == pre[b - 1]);
            }
        }
        assert forall|j: int| 0 <= j < pre.len() implies v@.contains(#[trigger] pre[j]) by {
            if j < p {
                assert(v@[j] == pre[j]);
            } else {
                assert(v@[j + 1] == pre[j]);
            }
        }
        assert forall|i2: int|
            0 <= i2 < v@.len() implies pre.contains(#[trigger] v@[i2]) || v@[i2] == entry by {
            if i2 < p {
                assert(v@[i2] == pre[i2]);
            } else if i2 > p {
                assert(v@[i2] == pre[i2 - 1]);
            }
        }
    }
}

/// The store contents after installing a sequence of transferred pairs, in
/// order: each pair overwrites its key.
pub open spec fn spec_install(m: Map<u64, Seq<u8>>, s: Seq<(u64, Seq<u8>)>) -> Map<u64, Seq<u8>>
    decreases s.len(),
{
    if s.len() == 0 {
        m
    } else {
        spec_install(m, s.drop_last()).insert(s.last().0, s.last().1)
    }
}

/// Some transferred pair carries the given key.
pub open spec fn spec_entries_have_key(s: Seq<(u64, Seq<u8>)>, k: u64) -> bool {
    exists|i: int| 0 <= i < s.len() && s[i].0 == k
}

/// The last pair of the sequence carrying the given key.
pub open spec fn spec_last_index_of_key(s: Seq<(u64, Seq<u8>)>, k: u64) -> int
    decreases s.len(),
{
    if s.len() == 0 {
        -1
    } else if s.last().0 == k {
        s.len() - 1
    } else {
        spec_last_index_of_key(s.drop_last(), k)
    }
}

/// Installing transferred pairs is observationally a store write per pair:
/// afterwards every key holds the value of the last pair that carried it,
/// keys no pair carried are untouched, and no key vanishes.
pub proof fn lemma_install_like_sets(m: Map<u64, Seq<u8>>, s: Seq<(u64, Seq<u8>)>)
    ensures
        forall|k: u64|
            #[trigger] spec_install(m, s).contains_key(k) <==> m.contains_key(k)
                || spec_entries_have_key(s, k),
        forall|k: u64|
            #[trigger] spec_install(m, s).contains_key(k) ==> spec_install(m, s)[k] == if
                spec_entries_have_key(s, k) {
                s[spec_last_index_of_key(s, k)].1
            } else {
                m[k]
            },
    decreases s.len(),
{
    if s.len() > 0 {
        lemma_install_like_sets(m, s.drop_last());
        let d = s.drop_last();
        assert(forall|i: int| 0 <= i < s.len() - 1 ==> d[i] == s[i]);
        assert forall|k: u64|
            #[trigger] spec_install(m, s).contains_key(k) <==> m.contains_key(k)
                || spec_entries_have_key(s, k) by {
            assert(spec_install(m, s) == spec_install(m, d).insert(s.last().0, s.last().1));
            if k != s.last().0 {
                assert(spec_install(m, s).contains_key(k) == spec_install(m, d).contains_key(k));
            }
            if k == s.last().0 {
                assert(s[s.len() - 1].0 == k);
                assert(spec_entries_have_key(s, k));
            } else {
                if spec_entries_have_key(s, k) {
                    let w = choose|i: int| 0 <= i < s.len() && s[i].0 == k;
                    assert(w < s.len() - 1 && d[w].0 == k);
                    assert(spec_entries_have_key(d, k));
                }
                if spec_entries_have_key(d, k) {
                    let w = choose|i: int| 0 <= i < d.len() && d[i].0 == k;
                    assert(s[w].0 == k);
                    assert(spec_entries_have_key(s, k));
                }
            }
        }
        assert forall|k: u64| #[trigger] spec_install(m, s).contains_key(k) implies spec_install(
            m,
            s,
        )[k] == if spec_entries_have_key(s, k) {
            s[spec_last_index_of_key(s, k)].1
        } else {
            m[k]
        } by {
            assert(spec_install(m, s) == spec_install(m, d).insert(s.last().0, s.last().1));
            if k != s.last().0 {
                assert(spec_install(m, s).contains_key(k) == spec_install(m, d).contains_key(k));
                assert(spec_install(m, s)[k] == spec_install(m, d)[k]);
            }
            if k == s.last().0 {
                assert(s[s.len() - 1].0 == k);
                assert(spec_entries_have_key(s, k));
                assert(spec_last_index_of_key(s, k) == s.len() - 1);
            } else {
                if spec_entries_have_key(s, k) {
                    let w = choose|i: int| 0 <= i < s.len() && s[i].0 == k;
                    assert(w < s.len() - 1 && d[w].0 == k);
                    assert(spec_entries_have_key(d, k));
                    let li = spec_last_index_of_key(d, k);
                    lemma_last_index_of_key(d, k);
                    assert(spec_last_index_of_key(s, k) == li);
                    assert(s[li] == d[li]);
                } else {
                    if spec_entries_have_key(d, k) {
                        let w = choose|i: int| 0 <= i < d.len() && d[i].0 == k;
                        assert(s[w].0 == k);
                        assert(spec_entries_have_key(s, k));
                    }
                }
            }
        }
    }
}

/// The last index of a carried key is a valid index carrying it.
pub proof fn lemma_last_index_of_key(s: Seq<(u64, Seq<u8>)>, k: u64)
    requires
        spec_entries_have_key(s, k),
    ensures
        0 <= spec_last_index_of_key(s, k) < s.len(),
        s[spec_last_index_of_key(s, k)].0 == k,
    decreases s.len(),
{
    if s.len() > 0 && s.last().0 != k {
        let d = s.drop_last();
        assert(forall|i: int| 0 <= i < s.len() - 1 ==> d[i] == s[i]);
        let w = choose|i: int| 0 <= i < s.len() && s[i].0 == k;
        assert(w < s.len() - 1 && d[w].0 == k);
        lemma_last_index_of_key(d, k);
    }
}

/// An optional byte value read at the spec level.
pub open spec fn spec_opt_bytes(v: Option<Vec<u8>>) -> Option<Seq<u8>> {
    match v {
        Option::None => Option::None,
        Option::Some(b) => Option::Some(b@),
    }
}

/// What handling a query decided: answer it here, or forward the restamped
/// request onward.
#[derive(Debug)]
pub enum QueryOutcome {
    Respond(QueryResponse),
    Forward(QueryRequest),
}

/// Copies an optional byte value.
fn clone_value(v: &Option<Vec<u8>>) -> (r: Option<Vec<u8>>)
    ensures
        spec_opt_bytes(r) == spec_opt_bytes(*v),
{
    match v {
        None => None,
        Some(b) => {
            let mut copy: Vec<u8> = Vec::new();
            let n = b.len();
            let mut i: usize = 0;
            while i < n
                invariant
                    n == b.len(),
                    0 <= i <= n,
                    copy@ == b@.take(i as int),
                decreases n - i,
            {
                copy.push(b[i]);
                proof {
                    assert(copy@ =~= b@.take(i + 1));
                }
                i = i + 1;
            }
            proof {
                assert(b@.take(n as int) =~= b@);
            }
            Some(copy)
        },
    }
}

} // verus!

//! The routing table: a sparse prefix-indexed forwarding table. Row `r`
//! holds peers whose ids share exactly the first `r` base-16 digits with
//! self; the cell within the row is picked by the next digit. Rows grow
//! lazily up to the longest stored prefix plus one.

use vstd::prelude::*;

use crate::error::Error;
use crate::node::NodeInfo;
use crate::ring::Ring;
use crate::ring::Ring64;
use crate::ring::spec_distance;
use crate::shared::KeyValuePair;
use crate::util::get_nth_digit_in_u64_hex;
use crate::util::get_num_matched_digits;
use crate::util::lemma_matched_digits;
use crate::util::spec_matched_digits;
use crate::util::spec_nth_digit;

verus! {

/// The column of the entry in a row closest on the ring to `id`, earliest
/// column winning ties; `-1` when the row is empty.
pub open spec fn spec_row_closest(row: Seq<Option<KeyValuePair<u64, NodeInfo>>>, id: u64) -> int
    decreases row.len(),
{
    if row.len() == 0 {
        -1
    } else {
        let rest = spec_row_closest(row.drop_last(), id);
        match row.last() {
            Option::None => rest,
            Option::Some(kv) => {
                if rest == -1 {
                    row.len() - 1
                } else {
                    match row[rest] {
                        Option::Some(best) => {
                            if spec_distance(kv.key, id) < spec_distance(best.key, id) {
                                row.len() - 1
                            } else {
                                rest
                            }
                        },
                        Option::None => row.len() - 1,
                    }
                }
            },
        }
    }
}

/// What `spec_row_closest` finds: an occupied column whenever one exists,
/// holding the entry closest on the ring to `id`, earlier occupied columns
/// lying strictly further away.
pub proof fn lemma_row_closest(row: Seq<Option<KeyValuePair<u64, NodeInfo>>>, id: u64)
    ensures
        -1 <= spec_row_closest(row, id) < row.len(),
        spec_row_closest(row, id) == -1 <==> (forall|c: int|
            0 <= c < row.len() ==> row[c] is None),
        spec_row_closest(row, id) >= 0 ==> {
            let w = spec_row_closest(row, id);
            &&& w < row.len()
            &&& row[w] is Some
            &&& forall|c: int|
                0 <= c < row.len() && row[c] is Some ==> spec_distance(
                    row[w]->Some_0.key,
                    id,
                ) <= spec_distance((#[trigger] row[c])->Some_0.key, id)
            &&& forall|c: int|
                0 <= c < w && row[c] is Some ==> spec_distance(row[w]->Some_0.key, id)
                    < spec_distance((#[trigger] row[c])->Some_0.key, id)
        },
    decreases row.len(),
{
    if row.len() > 0 {
        let d = row.drop_last();
        let n = row.len() as int;
        lemma_row_closest(d, id);
        let rest = spec_row_closest(d, id);
        assert(forall|c: int| 0 <= c < n - 1 ==> d[c] == row[c]);
        let w = spec_row_closest(row, id);
        if w >= 0 {
            assert(row[w] is Some);
            assert forall|c: int| 0 <= c < n && (#[trigger] row[c]) is Some implies spec_distance(
                row[w]->Some_0.key,
                id,
            ) <= spec_distance(row[c]->Some_0.key, id) by {
                if c < n - 1 {
                    assert(d[c] == row[c]);
                    assert(rest >= 0);
                    assert(spec_distance(d[rest]->Some_0.key, id) <= spec_distance(
                        d[c]->Some_0.key,
                        id,
                    ));
                }
            }
            assert forall|c: int| 0 <= c < w && (#[trigger] row[c]) is Some implies spec_distance(
                row[w]->Some_0.key,
                id,
            ) < spec_distance(row[c]->Some_0.key, id) by {
                assert(d[c] == row[c]);
                assert(rest >= 0);
                if w < n - 1 {
                    assert(spec_distance(d[rest]->Some_0.key, id) < spec_distance(
                        d[c]->Some_0.key,
                        id,
                    ));
                } else {
                    assert(spec_distance(d[rest]->Some_0.key, id) <= spec_distance(
                        d[c]->Some_0.key,
                        id,
                    ));
                }
            }
        }
    }
}

/// Scanning one more column moves the closest column to it exactly when it
/// is occupied and strictly closer to `id` (or nothing was found yet).
pub proof fn lemma_row_closest_step(
    row: Seq<Option<KeyValuePair<u64, NodeInfo>>>,
    id: u64,
    c: int,
)
    requires
        0 <= c < row.len(),
    ensures
        spec_row_closest(row.take(c + 1), id) == match row[c] {
            Option::None => spec_row_closest(row.take(c), id),
            Option::Some(kv) => {
                let rest = spec_row_closest(row.take(c), id);
                if rest == -1 {
                    c
                } else {
                    match row.take(c)[rest] {
                        Option::Some(best) => {
                            if spec_distance(kv.key, id) < spec_distance(best.key, id) {
                                c
                            } else {
                                rest
                            }
                        },
                        Option::None => c,
                    }
                }
            },
        },
{
    let t = row.take(c + 1);
    assert(t.drop_last() =~= row.take(c));
    assert(t.last() == row[c]);
    lemma_row_closest(row.take(c), id);
    let rest = spec_row_closest(row.take(c), id);
    assert(forall|j: int| 0 <= j < c ==> t[j] == row.take(c)[j]);
    match row[c] {
        Option::None => {
            assert(spec_row_closest(t, id) == spec_row_closest(t.drop_last(), id));
        },
        Option::Some(kv) => {
            if rest >= 0 {
                assert(t[rest] == row.take(c)[rest]);
                assert(row.take(c)[rest] is Some);
            }
        },
    }
}

/// The Pastry routing table of a peer: up to 16 rows of 16 cells.
#[derive(Debug)]
pub struct RoutingTable {
    id: u64,
    table: Vec<Vec<Option<KeyValuePair<u64, NodeInfo>>>>,
}

impl RoutingTable {
    /// The id of the peer the table belongs to.
    pub closed spec fn spec_id(&self) -> u64 {
        self.id
    }

    /// The number of rows materialized so far.
    pub closed spec fn spec_rows(&self) -> int {
        self.table.len() as int
    }

    /// The cell at row `r`, column `c`.
    pub closed spec fn spec_cell(&self, r: int, c: int) -> Option<KeyValuePair<u64, NodeInfo>> {
        self.table@[r]@[c]
    }

    /// One row as a sequence of cells.
    pub closed spec fn spec_row(&self, r: int) -> Seq<Option<KeyValuePair<u64, NodeInfo>>> {
        self.table@[r]@
    }

    /// The structural invariant: at most 16 rows of exactly 16 cells, and
    /// every occupied cell (r, c) holds a peer other than self whose id
    /// shares exactly the first `r` digits with self's and continues with
    /// digit `c`, the descriptor agreeing with the id.
    pub closed spec fn wf(&self) -> bool {
        &&& self.table.len() <= 16
        &&& (forall|r: int| 0 <= r < self.table.len() ==> (#[trigger] self.table@[r])@.len() == 16)
        &&& (forall|r: int, c: int|
            0 <= r < self.table.len() && 0 <= c < 16 && (#[trigger] self.spec_cell(r, c))
                is Some ==> {
                let kv = self.spec_cell(r, c)->Some_0;
                &&& kv.key != self.id
                &&& spec_matched_digits(self.id, kv.key) == r
                &&& spec_nth_digit(kv.key, r) == c
                &&& kv.value.id == kv.key
            })
    }

    /// Creates an empty routing table for the peer with the given id.
    pub fn new(id: u64) -> (r: Self)
        ensures
            r.wf(),
            r.spec_id() == id,
            r.spec_rows() == 0,
    {
        Self { id, table: Vec::new() }
    }

    /// Inserts a peer, overwriting the cell its id selects; ids equal to
    /// self's are ignored.
    pub fn insert(&mut self, key: u64, value: NodeInfo) -> (r: Result<(), Error>)
        requires
            old(self).wf(),
            value.id == key,
        ensures
            final(self).wf(),
            final(self).spec_id() == old(self).spec_id(),
            r is Ok,
            key == old(self).spec_id() ==> *final(self) == *old(self),
            key != old(self).spec_id() ==> {
                let row = spec_matched_digits(old(self).spec_id(), key);
                let col = spec_nth_digit(key, row) as int;
                &&& final(self).spec_rows() == if old(self).spec_rows() >= row + 1 {
                    old(self).spec_rows()
                } else {
                    row + 1
                }
                &&& final(self).spec_cell(row, col) == Option::Some(
                    KeyValuePair { key, value },
                )
                &&& (forall|rr: int, cc: int|
                    0 <= rr < final(self).spec_rows() && 0 <= cc < 16 && !(rr == row && cc
                        == col) ==> #[trigger] final(self).spec_cell(rr, cc) == if rr
                        < old(self).spec_rows() {
                        old(self).spec_cell(rr, cc)
                    } else {
                        Option::<KeyValuePair<u64, NodeInfo>>::None
                    })
            },
    {
        if key == self.id {
            return Ok(());
        }

        let row = match get_num_matched_digits(self.id, key) {
            Ok(m) => m as usize,
            Err(_) => {
                proof {
                    assert(false);
                }
                return Ok(());
            },
        };
        proof {
            lemma_matched_digits(self.id, key);
            crate::util::lemma_matched_digits_full_iff_equal(self.id, key);
        }
        let col = match get_nth_digit_in_u64_hex(key, row) {
            Ok(d) => d as usize,
            Err(_) => {
                proof {
                    assert(false);
                }
                return Ok(());
            },
        };

        while self.table.len() < row + 1
            invariant
                old(self).wf(),
                self.id == old(self).spec_id(),
                row < 16,
                self.table.len() >= old(self).table.len(),
                self.table.len() > old(self).table.len() ==> self.table.len() <= row + 1,
                self.table.len() <= 16,
                forall|r: int|
                    0 <= r < self.table.len() ==> (#[trigger] self.table@[r])@.len() == 16,
                forall|r: int, c: int|
                    0 <= r < self.table@.len() && 0 <= c < 16 ==> #[trigger] self.table@[r]@[c]
                        == if r < old(self).spec_rows() {
                        old(self).spec_cell(r, c)
                    } else {
                        Option::<KeyValuePair<u64, NodeInfo>>::None
                    },
            decreases row + 1 - self.table.len(),
        {
            let mut new_row: Vec<Option<KeyValuePair<u64, NodeInfo>>> = Vec::new();
            let mut c: usize = 0;
            while c < 16
                invariant
                    0 <= c <= 16,
                    new_row@.len() == c,
                    forall|j: int| 0 <= j < c ==> new_row@[j] is None,
                decreases 16 - c,
            {
                new_row.push(None);
                c = c + 1;
            }
            let ghost before_push = self.table@;
            self.table.push(new_row);
            proof {
                assert forall|r2: int, c2: int|
                    0 <= r2 < self.table@.len() && 0 <= c2 < 16 implies #[trigger] self.table@[r2]@[c2]
                    == if r2 < old(self).spec_rows() {
                    old(self).spec_cell(r2, c2)
                } else {
                    Option::<KeyValuePair<u64, NodeInfo>>::None
                } by {
                    if r2 < before_push.len() {
                        assert(self.table@[r2] == before_push[r2]);
                        assert(before_push[r2]@[c2] == if r2 < old(self).spec_rows() {
                            old(self).spec_cell(r2, c2)
                        } else {
                            Option::<KeyValuePair<u64, NodeInfo>>::None
                        });
                    } else {
                        assert(self.table@[r2] == new_row);
                        assert(new_row@[c2] is None);
                    }
                }
            }
        }

        let ghost grown = self.table@;
        let mut r = self.table.remove(row);
        proof {
            assert(r@.len() == 16);
        }
        r[col] = Some(KeyValuePair::new(key, value));
        self.table.insert(row, r);
        proof {
            grown.insert_ensures(row as int, self.table@[row as int]);
            assert(self.table@ =~= grown.update(row as int, self.table@[row as int]));
            assert(self.table@[row as int]@ == grown[row as int]@.update(
                col as int,
                Option::Some(KeyValuePair { key, value }),
            ));
            assert(self.table@.len() == if old(self).spec_rows() >= row + 1 {
                old(self).spec_rows()
            } else {
                row as int + 1
            });
            assert(self.spec_cell(row as int, col as int) == Option::Some(
                KeyValuePair { key, value },
            ));
            assert forall|rr: int, cc: int|
                0 <= rr < self.table@.len() && 0 <= cc < 16 && !(rr == row && cc
                    == col) implies #[trigger] self.spec_cell(rr, cc) == if rr < old(
                self,
            ).spec_rows() {
                old(self).spec_cell(rr, cc)
            } else {
                Option::<KeyValuePair<u64, NodeInfo>>::None
            } by {
                assert(grown[rr]@[cc] == if rr < old(self).spec_rows() {
                    old(self).spec_cell(rr, cc)
                } else {
                    Option::<KeyValuePair<u64, NodeInfo>>::None
                });
                if rr == row as int {
                    assert(self.spec_cell(rr, cc) == grown[rr]@[cc]);
                } else {
                    assert(self.table@[rr] == grown[rr]);
                }
            }
            assert forall|rr: int|
                0 <= rr < self.table@.len() implies (#[trigger] self.table@[rr])@.len()
                == 16 by {
                if rr != row as int {
                    assert(self.table@[rr] == grown[rr]);
                }
            }
            assert forall|rr: int, cc: int|
                0 <= rr < self.table@.len() && 0 <= cc < 16 && (#[trigger] self.spec_cell(
                    rr,
                    cc,
                )) is Some implies {
                let kv2 = self.spec_cell(rr, cc)->Some_0;
                &&& kv2.key != self.id
                &&& spec_matched_digits(self.id, kv2.key) == rr
                &&& spec_nth_digit(kv2.key, rr) == cc
                &&& kv2.value.id == kv2.key
            } by {
                if !(rr == row as int && cc == col as int) {
                    if rr < old(self).spec_rows() {
                        assert(self.spec_cell(rr, cc) == old(self).spec_cell(rr, cc));
                    } else {
                        assert(self.spec_cell(rr, cc) is None);
                    }
                }
            }
        }
        Ok(())
    }

    /// Clears the cell a peer's id selects, if its row is materialized; ids
    /// equal to self's are ignored.
    pub fn remove(&mut self, key: u64) -> (r: Result<(), Error>)
        requires
            old(self).wf(),
        ensures
            final(self).wf(),
            final(self).spec_id() == old(self).spec_id(),
            final(self).spec_rows() == old(self).spec_rows(),
            r is Ok,
            (key == old(self).spec_id() || spec_matched_digits(old(self).spec_id(), key)
                >= old(self).spec_rows()) ==> *final(self) == *old(self),
            (key != old(self).spec_id() && spec_matched_digits(old(self).spec_id(), key) < old(
                self,
            ).spec_rows()) ==> {
                let row = spec_matched_digits(old(self).spec_id(), key);
                let col = spec_nth_digit(key, row) as int;
                &&& final(self).spec_cell(row, col) is None
                &&& (forall|rr: int, cc: int|
                    0 <= rr < old(self).spec_rows() && 0 <= cc < 16 && !(rr == row && cc
                        == col) ==> #[trigger] final(self).spec_cell(rr, cc) == old(
                        self,
                    ).spec_cell(rr, cc))
            },
    {
        if key == self.id {
            return Ok(());
        }

        let row = match get_num_matched_digits(self.id, key) {
            Ok(m) => m as usize,
            Err(_) => {
                proof {
                    assert(false);
                }
                return Ok(());
            },
        };
        proof {
            lemma_matched_digits(self.id, key);
        }

        if row >= self.table.len() {
            return Ok(());
        }

        let col = match get_nth_digit_in_u64_hex(key, row) {
            Ok(d) => d as usize,
            Err(_) => {
                proof {
                    assert(false);
                }
                return Ok(());
            },
        };

        let ghost pre = self.table@;
        let mut r = self.table.remove(row);
        proof {
            assert(r@.len() == 16);
        }
        r[col] = None;
        self.table.insert(row, r);
        proof {
            pre.insert_ensures(row as int, self.table@[row as int]);
            assert(self.table@ =~= pre.update(row as int, self.table@[row as int]));
            assert(self.table@[row as int]@ == pre[row as int]@.update(
                col as int,
                Option::<KeyValuePair<u64, NodeInfo>>::None,
            ));
            assert(self.spec_cell(row as int, col as int) is None);
            assert forall|rr: int, cc: int|
                0 <= rr < self.table@.len() && 0 <= cc < 16 && !(rr == row && cc
                    == col) implies #[trigger] self.spec_cell(rr, cc) == old(self).spec_cell(
                rr,
                cc,
            ) by {
                if rr == row as int {
                    assert(self.spec_cell(rr, cc) == pre[rr]@[cc]);
                } else {
                    assert(self.table@[rr] == pre[rr]);
                }
            }
            assert forall|rr: int|
                0 <= rr < self.table@.len() implies (#[trigger] self.table@[rr])@.len()
                == 16 by {
                if rr != row as int {
                    assert(self.table@[rr] == pre[rr]);
                }
            }
        }
        Ok(())
    }

    /// Returns the next node to route `key` to, together with the number of
    /// matched digits of its row.
    ///
    /// The row consulted is the greater of the shared-prefix length of self
    /// and `key` and `min_matched_digits`; when that row is not
    /// materialized there is no table route. Within the row the cell of the
    /// key's next digit wins; when it is empty the row's entry closest on
    /// the ring to self stands in, which keeps the same-or-longer-prefix
    /// guarantee.
    pub fn route(&self, key: u64, min_matched_digits: usize) -> (r: Result<
        Option<(NodeInfo, usize)>,
        Error,
    >)
        requires
            self.wf(),
        ensures
            match r {
                Ok(opt) => {
                    let row = if spec_matched_digits(self.spec_id(), key) >= min_matched_digits {
                        spec_matched_digits(self.spec_id(), key)
                    } else {
                        min_matched_digits as int
                    };
                    if row >= self.spec_rows() {
                        opt is None
                    } else {
                        let col = spec_nth_digit(key, row) as int;
                        match self.spec_cell(row, col) {
                            Option::Some(kv) => opt == Option::Some((kv.value, row as usize)),
                            Option::None => {
                                let w = spec_row_closest(self.spec_row(row), self.spec_id());
                                if w < 0 {
                                    opt is None
                                } else {
                                    opt == Option::Some(
                                        (self.spec_row(row)[w]->Some_0.value, row as usize),
                                    )
                                }
                            },
                        }
                    }
                },
                Err(_) => false,
            },
    {
        let matched = match get_num_matched_digits(self.id, key) {
            Ok(m) => m as usize,
            Err(e) => {
                return Err(e);
            },
        };
        proof {
            lemma_matched_digits(self.id, key);
        }
        let row_index = if matched >= min_matched_digits {
            matched
        } else {
            min_matched_digits
        };

        if row_index >= self.table.len() {
            return Ok(None);
        }

        let col = match get_nth_digit_in_u64_hex(key, row_index) {
            Ok(d) => d as usize,
            Err(e) => {
                return Err(e);
            },
        };

        let row = &self.table[row_index];
        if let Some(kv) = &row[col] {
            return Ok(Some((kv.value.clone(), row_index)));
        }

        let ghost rs = self.spec_row(row_index as int);
        let mut best: usize = 0;
        let mut found = false;
        let mut c: usize = 0;
        proof {
            assert(rs.take(0) =~= Seq::<Option<KeyValuePair<u64, NodeInfo>>>::empty());
        }
        while c < 16
            invariant
                self.wf(),
                rs == self.spec_row(row_index as int),
                0 <= row_index < self.spec_rows(),
                rs.len() == 16,
                0 <= c <= 16,
                found <==> spec_row_closest(rs.take(c as int), self.spec_id()) >= 0,
                found ==> best == spec_row_closest(rs.take(c as int), self.spec_id()),
            decreases 16 - c,
        {
            proof {
                lemma_row_closest_step(rs, self.spec_id(), c as int);
                lemma_row_closest(rs.take(c as int), self.spec_id());
            }
            if let Some(kv) = &self.table[row_index][c] {
                if !found {
                    best = c;
                    found = true;
                } else {
                    let dc = Ring64::distance(kv.key, self.id);
                    let db = match &self.table[row_index][best] {
                        Some(b) => Ring64::distance(b.key, self.id),
                        None => {
                            proof {
                                assert(false);
                            }
                            0
                        },
                    };
                    if dc < db {
                        best = c;
                    }
                }
            }
            c = c + 1;
        }
        proof {
            assert(rs.take(16) =~= rs);
            lemma_row_closest(rs, self.spec_id());
        }

        if !found {
            return Ok(None);
        }

        match &self.table[row_index][best] {
            Some(kv) => Ok(Some((kv.value.clone(), row_index))),
            None => {
                proof {
                    lemma_row_closest(rs, self.spec_id());
                    assert(false);
                }
                Err(Error::Internal("row entry vanished".to_owned()))
            },
        }
    }

    /// The number of rows materialized so far.
    pub fn num_rows(&self) -> (r: usize)
        ensures
            r == self.spec_rows(),
    {
        self.table.len()
    }

    /// Returns the descriptor in one cell, if the row is materialized and
    /// the cell occupied.
    pub fn cell(&self, row: usize, column: usize) -> (r: Option<NodeInfo>)
        requires
            self.wf(),
            row < self.spec_rows(),
            column < 16,
        ensures
            r == match self.spec_cell(row as int, column as int) {
                Option::Some(kv) => Option::Some(kv.value),
                Option::None => Option::<NodeInfo>::None,
            },
    {
        match &self.table[row][column] {
            Some(kv) => Some(kv.value.clone()),
            None => None,
        }
    }

    /// Returns a copy of a row of the routing table, if it is materialized.
    pub fn get_row(&self, index: usize) -> (r: Option<Vec<Option<NodeInfo>>>)
        requires
            self.wf(),
        ensures
            match r {
                Some(row) => {
                    &&& index < self.spec_rows()
                    &&& row@.len() == 16
                    &&& forall|c: int|
                        0 <= c < 16 ==> #[trigger] row@[c] == match self.spec_cell(
                            index as int,
                            c,
                        ) {
                            Option::Some(kv) => Option::Some(kv.value),
                            Option::None => Option::<NodeInfo>::None,
                        }
                },
                None => index >= self.spec_rows(),
            },
    {
        if index >= self.table.len() {
            return None;
        }

        let mut row: Vec<Option<NodeInfo>> = Vec::new();
        let mut c: usize = 0;
        while c < 16
            invariant
                self.wf(),
                index < self.spec_rows(),
                0 <= c <= 16,
                row@.len() == c,
                forall|j: int|
                    0 <= j < c ==> #[trigger] row@[j] == match self.spec_cell(index as int, j) {
                        Option::Some(kv) => Option::Some(kv.value),
                        Option::None => Option::<NodeInfo>::None,
                    },
            decreases 16 - c,
        {
            match &self.table[index][c] {
                Some(kv) => row.push(Some(kv.value.clone())),
                None => row.push(None),
            }
            c = c + 1;
        }
        Some(row)
    }

    /// Returns every cell of the routing table, row by row.
    pub fn get_entries(&self) -> (r: Vec<Option<NodeInfo>>)
        requires
            self.wf(),
        ensures
            r@.len() == self.spec_rows() * 16,
            forall|rr: int, cc: int|
                0 <= rr < self.spec_rows() && 0 <= cc < 16 ==> #[trigger] r@[rr * 16 + cc]
                    == match self.spec_cell(rr, cc) {
                    Option::Some(kv) => Option::Some(kv.value),
                    Option::None => Option::<NodeInfo>::None,
                },
    {
        let n = self.table.len();
        let mut r: Vec<Option<NodeInfo>> = Vec::new();
        let mut i: usize = 0;
        while i < n
            invariant
                self.wf(),
                n == self.spec_rows(),
                0 <= i <= n,
                r@.len() == i * 16,
                forall|rr: int, cc: int|
                    0 <= rr < i && 0 <= cc < 16 ==> #[trigger] r@[rr * 16 + cc]
                        == match self.spec_cell(rr, cc) {
                        Option::Some(kv) => Option::Some(kv.value),
                        Option::None => Option::<NodeInfo>::None,
                    },
            decreases n - i,
        {
            let mut c: usize = 0;
            while c < 16
                invariant
                    self.wf(),
                    n == self.spec_rows(),
                    0 <= i < n,
                    0 <= c <= 16,
                    r@.len() == i * 16 + c,
                    forall|rr: int, cc: int|
                        0 <= rr < i && 0 <= cc < 16 ==> #[trigger] r@[rr * 16 + cc]
                            == match self.spec_cell(rr, cc) {
                            Option::Some(kv) => Option::Some(kv.value),
                            Option::None => Option::<NodeInfo>::None,
                        },
                    forall|cc: int|
                        0 <= cc < c ==> #[trigger] r@[i as int * 16 + cc] == match self.spec_cell(
                            i as int,
                            cc,
                        ) {
                            Option::Some(kv) => Option::Some(kv.value),
                            Option::None => Option::<NodeInfo>::None,
                        },
                decreases 16 - c,
            {
                match &self.table[i][c] {
                    Some(kv) => r.push(Some(kv.value.clone())),
                    None => r.push(None),
                }
                c = c + 1;
            }
            i = i + 1;
        }
        r
    }
}

/// The routing-table invariant: every occupied cell (r, c) holds a peer
/// other than self whose id shares exactly the first `r` base-16 digits
/// with self's id and whose next digit is `c`.
pub proof fn lemma_routing_table_invariant(t: &RoutingTable)
    requires
        t.wf(),
    ensures
        t.spec_rows() <= 16,
        forall|r: int, c: int|
            0 <= r < t.spec_rows() && 0 <= c < 16 && (#[trigger] t.spec_cell(r, c)) is Some ==> {
                let kv = t.spec_cell(r, c)->Some_0;
                &&& kv.key != t.spec_id()
                &&& spec_matched_digits(t.spec_id(), kv.key) == r
                &&& spec_nth_digit(kv.key, r) == c
                &&& kv.value.id == kv.key
            },
{
}

/// A forwarding chain of peers other than the key's own id, whose every
/// step strictly lengthens the shared prefix with the key, visits at most
/// 16 peers: a peer distinct from the key shares at most 15 of its 16
/// base-16 digits.
pub proof fn lemma_prefix_chain_length(key: u64, ids: Seq<u64>)
    requires
        forall|i: int| 0 <= i < ids.len() ==> (#[trigger] ids[i]) != key,
        forall|i: int|
            0 <= i < ids.len() - 1 ==> spec_matched_digits(ids[i + 1], key) > spec_matched_digits(
                #[trigger] ids[i],
                key,
            ),
    ensures
        ids.len() <= 16,
    decreases ids.len(),
{
    if ids.len() > 0 {
        lemma_chain_growth(key, ids);
        lemma_matched_digits(ids[0], key);
        lemma_matched_digits(ids[ids.len() - 1], key);
        crate::util::lemma_matched_digits_full_iff_equal(ids[ids.len() - 1], key);
    }
}

proof fn lemma_chain_growth(key: u64, ids: Seq<u64>)
    requires
        ids.len() >= 1,
        forall|i: int|
            0 <= i < ids.len() - 1 ==> spec_matched_digits(ids[i + 1], key) > spec_matched_digits(
                #[trigger] ids[i],
                key,
            ),
    ensures
        spec_matched_digits(ids[ids.len() - 1], key) >= spec_matched_digits(ids[0], key)
            + ids.len() - 1,
    decreases ids.len(),
{
    if ids.len() > 1 {
        let d = ids.drop_last();
        assert(forall|i: int| 0 <= i < d.len() ==> d[i] == ids[i]);
        lemma_chain_growth(key, d);
        assert(spec_matched_digits(ids[ids.len() - 1], key) > spec_matched_digits(
            ids[ids.len() - 2],
            key,
        ));
    }
}

/// An occupied cell in the row and column that `key` selects shares a
/// strictly longer prefix with `key` than self does, as long as the row
/// index is below 15. Since prefixes are capped at 16 digits, forwarding
/// through exact cells reaches the longest prefix within 16 hops.
pub proof fn lemma_table_route_progress(t: &RoutingTable, key: u64, r: int)
    requires
        t.wf(),
        0 <= r < t.spec_rows(),
        r <= spec_matched_digits(t.spec_id(), key),
        r < 15,
        t.spec_cell(r, spec_nth_digit(key, r) as int) is Some,
    ensures
        spec_matched_digits(t.spec_cell(r, spec_nth_digit(key, r) as int)->Some_0.key, key) >= r
            + 1,
{
    crate::util::lemma_nth_digit_bound(key, r);
    let col = spec_nth_digit(key, r) as int;
    let kv = t.spec_cell(r, col)->Some_0;
    lemma_matched_digits(t.spec_id(), kv.key);
    lemma_matched_digits(t.spec_id(), key);
    assert forall|j: int| 0 <= j < r + 1 implies spec_nth_digit(kv.key, j) == spec_nth_digit(
        key,
        j,
    ) by {
        if j < r {
            assert(spec_nth_digit(t.spec_id(), j) == spec_nth_digit(kv.key, j));
            assert(spec_nth_digit(t.spec_id(), j) == spec_nth_digit(key, j));
        } else {
            assert(spec_nth_digit(kv.key, r) == col);
        }
    }
    crate::util::lemma_matched_digits_at_least(kv.key, key, r + 1);
}

} // verus!

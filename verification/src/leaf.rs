//! The leaf set: the ordered set of the `2k` peers whose ids are closest to
//! self on the ring, `k` on each side, plus self at a fixed central index.
//!
//! The leaf set is the canonical authority for final delivery: a key is
//! delivered locally exactly when self is numerically closest to it among
//! the set.

use vstd::prelude::*;

use crate::error::Error;
use crate::node::NodeInfo;
use crate::ring::Ring;
use crate::ring::Ring64;
use crate::ring::spec_counter_clockwise_distance;
use crate::ring::spec_distance;
use crate::shared::KeyValuePair;
use crate::util::get_num_matched_digits;
use crate::util::spec_matched_digits;

verus! {

/// Keys strictly increase along the sequence.
pub open spec fn spec_sorted_strict(s: Seq<u64>) -> bool {
    forall|i: int, j: int| 0 <= i < j < s.len() ==> s[i] < s[j]
}

/// The greatest index whose key is at most `key`; `-1` when every key is
/// greater.
pub open spec fn spec_pred_idx(s: Seq<u64>, key: u64) -> int
    decreases s.len(),
{
    if s.len() == 0 {
        -1
    } else if s.last() <= key {
        s.len() - 1
    } else {
        spec_pred_idx(s.drop_last(), key)
    }
}

/// The index of the entry that owns `key`: its clockwise predecessor in the
/// sorted sequence, wrapping to the greatest key when `key` precedes them
/// all.
pub open spec fn spec_owner_idx(s: Seq<u64>, key: u64) -> int {
    if spec_pred_idx(s, key) == -1 {
        s.len() - 1
    } else {
        spec_pred_idx(s, key)
    }
}

/// What `spec_pred_idx` finds: an index with a key at most `key` such that
/// every later key exceeds `key`, or `-1` when every key exceeds `key`.
pub proof fn lemma_pred_idx(s: Seq<u64>, key: u64)
    ensures
        -1 <= spec_pred_idx(s, key) < s.len(),
        spec_pred_idx(s, key) >= 0 ==> s[spec_pred_idx(s, key)] <= key,
        forall|i: int| spec_pred_idx(s, key) < i < s.len() ==> s[i] > key,
    decreases s.len(),
{
    if s.len() > 0 && s.last() > key {
        lemma_pred_idx(s.drop_last(), key);
        assert(forall|i: int| 0 <= i < s.len() - 1 ==> s.drop_last()[i] == s[i]);
    }
}

/// Scanning one more element moves the predecessor index to it exactly when
/// its key is at most `key`.
pub proof fn lemma_pred_idx_step(s: Seq<u64>, key: u64, i: int)
    requires
        0 <= i < s.len(),
    ensures
        spec_pred_idx(s.take(i + 1), key) == if s[i] <= key {
            i
        } else {
            spec_pred_idx(s.take(i), key)
        },
{
    assert(s.take(i + 1).drop_last() =~= s.take(i));
    assert(s.take(i + 1).last() == s[i]);
}

/// Whether `e` lies on the clockwise side of `key`: the clockwise walk
/// from `key` reaches `e` no later than the counter-clockwise walk does.
pub open spec fn spec_clockwise_of(key: u64, e: u64) -> bool {
    spec_counter_clockwise_distance(e, key) <= spec_counter_clockwise_distance(key, e)
}

/// The index of the entry closest on the ring to `key`; on a distance tie
/// the clockwise entry wins.
pub open spec fn spec_closest_idx(s: Seq<u64>, key: u64) -> int
    decreases s.len(),
{
    if s.len() <= 1 {
        0
    } else {
        let r = spec_closest_idx(s.drop_last(), key);
        if spec_distance(key, s.last()) < spec_distance(key, s[r]) || (spec_distance(
            key,
            s.last(),
        ) == spec_distance(key, s[r]) && spec_clockwise_of(key, s.last()) && !spec_clockwise_of(
            key,
            s[r],
        )) {
            s.len() - 1
        } else {
            r
        }
    }
}

/// What `spec_closest_idx` finds: the entry at it minimises ring distance
/// to `key`, and on any distance tie the clockwise entry is preferred over
/// the counter-clockwise one.
pub proof fn lemma_closest_idx(s: Seq<u64>, key: u64)
    requires
        s.len() >= 1,
    ensures
        0 <= spec_closest_idx(s, key) < s.len(),
        forall|i: int|
            0 <= i < s.len() ==> spec_distance(key, s[spec_closest_idx(s, key)])
                <= #[trigger] spec_distance(key, s[i]),
        forall|i: int|
            0 <= i < spec_closest_idx(s, key) && spec_distance(key, s[spec_closest_idx(s, key)])
                == #[trigger] spec_distance(key, s[i]) ==> spec_clockwise_of(
                key,
                s[spec_closest_idx(s, key)],
            ) && !spec_clockwise_of(key, s[i]),
        forall|i: int|
            spec_closest_idx(s, key) < i < s.len() && spec_distance(
                key,
                s[spec_closest_idx(s, key)],
            ) == #[trigger] spec_distance(key, s[i]) ==> spec_clockwise_of(
                key,
                s[spec_closest_idx(s, key)],
            ) || !spec_clockwise_of(key, s[i]),
    decreases s.len(),
{
    if s.len() > 1 {
        lemma_closest_idx(s.drop_last(), key);
        assert(forall|i: int| 0 <= i < s.len() - 1 ==> s.drop_last()[i] == s[i]);
    }
}

/// Scanning one more element moves the closest index to it exactly when it
/// is strictly closer to `key`, or equally close and clockwise where the
/// current best is not.
pub proof fn lemma_closest_idx_step(s: Seq<u64>, key: u64, i: int)
    requires
        1 <= i < s.len(),
    ensures
        spec_closest_idx(s.take(i + 1), key) == if spec_distance(key, s[i]) < spec_distance(
            key,
            s[spec_closest_idx(s.take(i), key)],
        ) || (spec_distance(key, s[i]) == spec_distance(
            key,
            s[spec_closest_idx(s.take(i), key)],
        ) && spec_clockwise_of(key, s[i]) && !spec_clockwise_of(
            key,
            s[spec_closest_idx(s.take(i), key)],
        )) {
            i
        } else {
            spec_closest_idx(s.take(i), key)
        },
{
    assert(s.take(i + 1).drop_last() =~= s.take(i));
    assert(s.take(i + 1).last() == s[i]);
    lemma_closest_idx(s.take(i), key);
    assert(forall|j: int| 0 <= j < i ==> s.take(i + 1)[j] == s.take(i)[j]);
}

/// `i` reduced into `[0, m)`, for `i` below `2m`: the cyclic step used to
/// place the edge indices of a full set.
pub open spec fn spec_cyc(i: int, m: int) -> int {
    if i < m {
        i
    } else {
        i - m
    }
}

/// The leaf set of a peer.
#[derive(Debug)]
pub struct LeafSet {
    max_size: usize,
    node_idx: usize,
    first_idx: usize,
    last_idx: usize,
    set: Vec<KeyValuePair<u64, NodeInfo>>,
}

impl LeafSet {
    /// The ids held, in ascending order.
    pub closed spec fn keys(&self) -> Seq<u64> {
        self.set@.map(|i: int, kv: KeyValuePair<u64, NodeInfo>| kv.key)
    }

    /// The peer descriptors held, aligned with `keys`.
    pub closed spec fn infos(&self) -> Seq<NodeInfo> {
        self.set@.map(|i: int, kv: KeyValuePair<u64, NodeInfo>| kv.value)
    }

    /// The greatest number of entries the set may hold: `2k + 1`.
    pub closed spec fn spec_max_size(&self) -> int {
        self.max_size as int
    }

    /// The index of self within the sorted entries.
    pub closed spec fn spec_node_idx(&self) -> int {
        self.node_idx as int
    }

    /// The index of the furthest counter-clockwise entry, meaningful when
    /// the set is full.
    pub closed spec fn spec_first_idx(&self) -> int {
        self.first_idx as int
    }

    /// The index of the furthest clockwise entry, meaningful when the set is
    /// full.
    pub closed spec fn spec_last_idx(&self) -> int {
        self.last_idx as int
    }

    /// The id of the owning peer itself.
    pub open spec fn spec_node_key(&self) -> u64 {
        self.keys()[self.spec_node_idx()]
    }

    /// Whether the set holds as many entries as it may.
    pub open spec fn spec_is_full(&self) -> bool {
        self.keys().len() == self.spec_max_size()
    }

    /// Whether the entry at `idx` lies on the clockwise side of self, under
    /// the cyclic layout of a full set.
    pub open spec fn spec_is_cw(&self, idx: int) -> bool {
        if self.spec_last_idx() > self.spec_node_idx() {
            self.spec_node_idx() <= idx <= self.spec_last_idx()
        } else {
            self.spec_node_idx() <= idx || idx <= self.spec_last_idx()
        }
    }

    /// The structural invariant: an odd capacity of at least three, sorted
    /// distinct ids, self present, each descriptor agreeing with its id, and
    /// the edge indices placed `k` away from self whenever the set is full.
    pub closed spec fn wf(&self) -> bool {
        &&& 3 <= self.max_size
        &&& self.max_size % 2 == 1
        &&& self.max_size <= usize::MAX / 2
        &&& 1 <= self.set.len() <= self.max_size
        &&& self.node_idx < self.set.len()
        &&& spec_sorted_strict(self.keys())
        &&& (forall|i: int| 0 <= i < self.set.len() ==> (#[trigger] self.set@[i]).value.id
            == self.set@[i].key)
        &&& (self.set.len() == self.max_size ==> {
            &&& self.last_idx == spec_cyc(self.node_idx as int + self.max_size as int / 2, self.max_size as int)
            &&& self.first_idx == spec_cyc(self.last_idx as int + 1, self.max_size as int)
        })
    }

    /// Creates a leaf set for the peer `value` with id `key`, holding up to
    /// `k` neighbors on each side. Rejects `k < 1`.
    pub fn new(k: usize, key: u64, value: NodeInfo) -> (r: Result<Self, Error>)
        requires
            k <= usize::MAX / 5,
            value.id == key,
        ensures
            match r {
                Ok(l) => {
                    &&& k >= 1
                    &&& l.wf()
                    &&& l.keys() =~= seq![key]
                    &&& l.infos() =~= seq![value]
                    &&& l.spec_max_size() == 2 * k + 1
                    &&& l.spec_node_key() == key
                    &&& !l.spec_is_full()
                },
                Err(e) => k < 1 && e is Config,
            },
    {
        if k < 1 {
            return Err(Error::Config("cannot have leaf set with k < 1".to_owned()));
        }

        let mut set: Vec<KeyValuePair<u64, NodeInfo>> = Vec::new();
        set.push(KeyValuePair::new(key, value));
        let r = Self { max_size: 2 * k + 1, node_idx: 0, first_idx: 0, last_idx: 0, set };
        proof {
            assert(r.keys() =~= seq![key]);
            assert(r.infos() =~= seq![value]);
        }
        Ok(r)
    }

    /// Checks if the leaf set is full.
    pub fn is_full(&self) -> (r: bool)
        ensures
            r == self.spec_is_full(),
    {
        self.set.len() == self.max_size
    }

    /// Gets the maximum leaf set size (2k + 1).
    pub fn get_max_size(&self) -> (r: usize)
        ensures
            r == self.spec_max_size(),
    {
        self.max_size
    }

    /// Gets all leaf set entries, self included, in ascending id order.
    pub fn get_set(&self) -> (r: Vec<NodeInfo>)
        ensures
            r@ == self.infos(),
    {
        let n = self.set.len();
        let mut r: Vec<NodeInfo> = Vec::new();
        let mut i: usize = 0;
        while i < n
            invariant
                n == self.set.len(),
                0 <= i <= n,
                r@ == self.infos().take(i as int),
            decreases n - i,
        {
            r.push(self.set[i].value.clone());
            proof {
                assert(r@ =~= self.infos().take(i + 1));
            }
            i = i + 1;
        }
        proof {
            assert(self.infos().take(n as int) =~= self.infos());
        }
        r
    }

    /// Gets the leaf set entries other than self, in ascending id order.
    pub fn get_entries(&self) -> (r: Vec<NodeInfo>)
        requires
            self.wf(),
        ensures
            r@ == self.infos().remove(self.spec_node_idx()),
    {
        let n = self.set.len();
        let node_id = self.set[self.node_idx].key;
        let mut r: Vec<NodeInfo> = Vec::new();
        let mut i: usize = 0;
        while i < n
            invariant
                self.wf(),
                n == self.set.len(),
                node_id == self.spec_node_key(),
                0 <= i <= n,
                i <= self.spec_node_idx() ==> r@ == self.infos().take(i as int),
                i > self.spec_node_idx() ==> r@ == self.infos().remove(self.spec_node_idx()).take(
                    i - 1,
                ),
            decreases n - i,
        {
            if self.set[i].key != node_id {
                r.push(self.set[i].value.clone());
            }
            proof {
                let node = self.spec_node_idx();
                assert(self.keys()[i as int] == self.set@[i as int].key);
                assert(self.keys()[node] == self.set@[node].key);
                if i < node {
                    assert(self.keys()[i as int] < self.keys()[node]);
                    assert(r@ =~= self.infos().take(i + 1));
                } else if i == node {
                    assert(r@ =~= self.infos().remove(node).take(i as int));
                } else {
                    assert(self.keys()[node] < self.keys()[i as int]);
                    assert(r@ =~= self.infos().remove(node).take(i as int));
                }
            }
            i = i + 1;
        }
        proof {
            assert(self.infos().remove(self.spec_node_idx()).take(n - 1) =~= self.infos().remove(
                self.spec_node_idx(),
            ));
        }
        r
    }

    /// Finds the index of the owner of `key` in the set: the entry whose id
    /// is the clockwise predecessor of `key`, or none when the set is full
    /// and `key` lies beyond its furthest clockwise entry.
    pub fn find_owner(&self, key: u64) -> (r: Option<usize>)
        requires
            self.wf(),
        ensures
            r == if self.spec_is_full() && spec_owner_idx(self.keys(), key)
                == self.spec_last_idx() {
                Option::<usize>::None
            } else {
                Option::<usize>::Some(spec_owner_idx(self.keys(), key) as usize)
            },
    {
        let ghost s = self.keys();
        let n = self.set.len();
        let mut found = false;
        let mut owner: usize = 0;
        let mut i: usize = 0;
        proof {
            assert(s.take(0) =~= Seq::<u64>::empty());
        }
        while i < n
            invariant
                self.wf(),
                s == self.keys(),
                n == self.set.len(),
                0 <= i <= n,
                found <==> spec_pred_idx(s.take(i as int), key) >= 0,
                found ==> owner == spec_pred_idx(s.take(i as int), key),
            decreases n - i,
        {
            proof {
                lemma_pred_idx_step(s, key, i as int);
            }
            if self.set[i].key <= key {
                owner = i;
                found = true;
            }
            i = i + 1;
        }
        proof {
            assert(s.take(n as int) =~= s);
            lemma_pred_idx(s, key);
        }
        let idx = if found {
            owner
        } else {
            n - 1
        };
        if self.set.len() == self.max_size && idx == self.last_idx {
            None
        } else {
            Some(idx)
        }
    }

    /// Gets the node that is the owner of the supplied key, or none when the
    /// key lies outside the arc the full set spans.
    pub fn get(&self, key: u64) -> (r: Option<NodeInfo>)
        requires
            self.wf(),
        ensures
            r == if self.spec_is_full() && spec_owner_idx(self.keys(), key)
                == self.spec_last_idx() {
                Option::<NodeInfo>::None
            } else {
                Option::<NodeInfo>::Some(self.infos()[spec_owner_idx(self.keys(), key)])
            },
    {
        proof {
            lemma_pred_idx(self.keys(), key);
        }
        match self.find_owner(key) {
            Some(idx) => Some(self.set[idx].value.clone()),
            None => None,
        }
    }

    /// Gets the node whose id is closest on the ring to the supplied key,
    /// ties going to the clockwise entry, together with the number of
    /// base-16 digits the key and that id share.
    pub fn get_closest(&self, key: u64) -> (r: Result<(NodeInfo, usize), Error>)
        requires
            self.wf(),
        ensures
            match r {
                Ok((info, matched)) => {
                    &&& info == self.infos()[spec_closest_idx(self.keys(), key)]
                    &&& matched == spec_matched_digits(key, self.keys()[spec_closest_idx(
                        self.keys(),
                        key,
                    )])
                },
                Err(_) => false,
            },
    {
        let ghost s = self.keys();
        let n = self.set.len();
        let mut best: usize = 0;
        let mut i: usize = 1;
        proof {
            assert(s.take(1) =~= seq![s[0]]);
            assert(spec_closest_idx(s.take(1), key) == 0);
        }
        while i < n
            invariant
                self.wf(),
                s == self.keys(),
                n == self.set.len(),
                1 <= i <= n,
                0 <= best < i,
                best == spec_closest_idx(s.take(i as int), key),
            decreases n - i,
        {
            proof {
                lemma_closest_idx_step(s, key, i as int);
            }
            let di = Ring64::distance(key, self.set[i].key);
            let db = Ring64::distance(key, self.set[best].key);
            if di < db || (di == db && clockwise_of(key, self.set[i].key) && !clockwise_of(
                key,
                self.set[best].key,
            )) {
                best = i;
            }
            i = i + 1;
        }
        proof {
            assert(s.take(n as int) =~= s);
        }
        let matched = match get_num_matched_digits(key, self.set[best].key) {
            Ok(m) => m,
            Err(e) => {
                return Err(e);
            },
        };
        Ok((self.set[best].value.clone(), matched as usize))
    }

    /// Gets the first neighbor counter-clockwise of self, or none when the
    /// set holds self alone.
    pub fn get_first_counter_clockwise_neighbor(&self) -> (r: Option<NodeInfo>)
        requires
            self.wf(),
        ensures
            r == if self.keys().len() == 1 {
                Option::<NodeInfo>::None
            } else {
                Option::<NodeInfo>::Some(
                    self.infos()[if self.spec_node_idx() == 0 {
                        self.keys().len() - 1
                    } else {
                        self.spec_node_idx() - 1
                    }],
                )
            },
    {
        let n = self.set.len();
        if n == 1 {
            return None;
        }
        let idx = if self.node_idx == 0 {
            n - 1
        } else {
            self.node_idx - 1
        };
        Some(self.set[idx].value.clone())
    }

    /// Gets the first neighbor clockwise of self, or none when the set holds
    /// self alone.
    pub fn get_first_clockwise_neighbor(&self) -> (r: Option<NodeInfo>)
        requires
            self.wf(),
        ensures
            r == if self.keys().len() == 1 {
                Option::<NodeInfo>::None
            } else {
                Option::<NodeInfo>::Some(
                    self.infos()[if self.spec_node_idx() == self.keys().len() - 1 {
                        0
                    } else {
                        self.spec_node_idx() + 1
                    }],
                )
            },
    {
        let n = self.set.len();
        if n == 1 {
            return None;
        }
        let idx = if self.node_idx == n - 1 {
            0
        } else {
            self.node_idx + 1
        };
        Some(self.set[idx].value.clone())
    }

    /// Gets the furthest neighbor in the counter-clockwise direction, or
    /// none when the set is not full.
    pub fn get_furthest_counter_clockwise_neighbor(&self) -> (r: Option<NodeInfo>)
        requires
            self.wf(),
        ensures
            r == if self.spec_is_full() {
                Option::<NodeInfo>::Some(self.infos()[self.spec_first_idx()])
            } else {
                Option::<NodeInfo>::None
            },
    {
        if !self.is_full() {
            return None;
        }

        Some(self.set[self.first_idx].value.clone())
    }

    /// Gets the furthest neighbor in the clockwise direction, or none when
    /// the set is not full.
    pub fn get_furthest_clockwise_neighbor(&self) -> (r: Option<NodeInfo>)
        requires
            self.wf(),
        ensures
            r == if self.spec_is_full() {
                Option::<NodeInfo>::Some(self.infos()[self.spec_last_idx()])
            } else {
                Option::<NodeInfo>::None
            },
    {
        if !self.is_full() {
            return None;
        }

        Some(self.set[self.last_idx].value.clone())
    }

    /// The index of self within the sorted entries.
    pub fn node_index(&self) -> (r: usize)
        requires
            self.wf(),
        ensures
            r == self.spec_node_idx(),
            r < self.keys().len(),
    {
        self.node_idx
    }

    /// The index at which the given id is held, if it is held at all.
    pub fn position_of(&self, id: u64) -> (r: Option<usize>)
        requires
            self.wf(),
        ensures
            match r {
                Some(i) => i < self.keys().len() && self.keys()[i as int] == id,
                None => !self.keys().contains(id),
            },
    {
        let n = self.set.len();
        let mut i: usize = 0;
        while i < n
            invariant
                self.wf(),
                n == self.set.len(),
                0 <= i <= n,
                forall|j: int| 0 <= j < i ==> self.keys()[j] != id,
            decreases n - i,
        {
            if self.set[i].key == id {
                proof {
                    assert(self.keys()[i as int] == id);
                }
                return Some(i);
            }
            proof {
                assert(self.keys()[i as int] == self.set@[i as int].key);
            }
            i = i + 1;
        }
        proof {
            if self.keys().contains(id) {
                let w = choose|w: int| 0 <= w < self.keys().len() && self.keys()[w] == id;
                assert(self.keys()[w] == id);
            }
        }
        None
    }

    /// The index of the furthest counter-clockwise entry of a full set.
    pub fn furthest_counter_clockwise_index(&self) -> (r: usize)
        requires
            self.wf(),
            self.spec_is_full(),
        ensures
            r == self.spec_first_idx(),
            r < self.keys().len(),
    {
        proof {
            lemma_full_edges_not_node(*self);
        }
        self.first_idx
    }

    /// Checks whether the entry at `idx` is a clockwise neighbor of self;
    /// every entry of a set that is not yet full counts as one.
    pub fn is_clockwise_neighbor(&self, idx: usize) -> (r: Result<bool, Error>)
        requires
            self.wf(),
        ensures
            match r {
                Ok(b) => idx < self.keys().len() && b == (!self.spec_is_full() || self.spec_is_cw(
                    idx as int,
                )),
                Err(e) => idx >= self.keys().len() && e is Internal,
            },
    {
        if idx >= self.set.len() {
            return Err(Error::Internal("index is out of bounds".to_owned()));
        }

        if !self.is_full() {
            return Ok(true);
        }

        Ok(
            if self.last_idx > self.node_idx {
                self.node_idx <= idx && idx <= self.last_idx
            } else {
                (self.node_idx <= idx) || (idx <= self.last_idx)
            },
        )
    }

    /// Inserts a peer into the leaf set, keeping it sorted and centered.
    ///
    /// An id already present (self included) is left as it is. When the set
    /// is not full the new entry takes its sorted position. When it is full
    /// the new entry displaces the furthest entry on its own side of self:
    /// the furthest clockwise entry when the id lies on the clockwise half,
    /// the furthest counter-clockwise entry otherwise. Fails when a full
    /// set names the furthest clockwise entry as the owner of the id, which
    /// puts the id outside the set's arc.
    pub fn insert(&mut self, key: u64, value: NodeInfo) -> (r: Result<(), Error>)
        requires
            old(self).wf(),
            value.id == key,
        ensures
            final(self).spec_max_size() == old(self).spec_max_size(),
            match r {
                Ok(_) => {
                    &&& final(self).wf()
                    &&& final(self).spec_node_key() == old(self).spec_node_key()
                    &&& (old(self).keys().contains(key) ==> *final(self) == *old(self))
                    &&& ((!old(self).keys().contains(key) && !old(self).spec_is_full()) ==> {
                        let p = spec_pred_idx(old(self).keys(), key) + 1;
                        &&& final(self).keys() == old(self).keys().insert(p, key)
                        &&& final(self).infos() == old(self).infos().insert(p, value)
                    })
                    &&& ((!old(self).keys().contains(key) && old(self).spec_is_full()) ==> {
                        let owner = spec_owner_idx(old(self).keys(), key);
                        let displaced = if old(self).spec_is_cw(owner) {
                            old(self).spec_last_idx()
                        } else {
                            old(self).spec_first_idx()
                        };
                        let reduced_keys = old(self).keys().remove(displaced);
                        let reduced_infos = old(self).infos().remove(displaced);
                        let p = spec_pred_idx(reduced_keys, key) + 1;
                        &&& owner != old(self).spec_last_idx()
                        &&& final(self).keys() == reduced_keys.insert(p, key)
                        &&& final(self).infos() == reduced_infos.insert(p, value)
                    })
                },
                Err(e) => {
                    &&& e is Internal
                    &&& *final(self) == *old(self)
                    &&& !old(self).keys().contains(key)
                    &&& old(self).spec_is_full()
                    &&& spec_owner_idx(old(self).keys(), key) == old(self).spec_last_idx()
                },
            },
    {
        let ghost s0 = self.keys();
        let (found, pred) = scan_pred(&self.set, key);
        proof {
            lemma_pred_idx(s0, key);
            lemma_sorted_contains(s0, key);
        }

        if found && self.set[pred].key == key {
            // the id is already present; keep the existing entry
            return Ok(());
        }

        if self.set.len() < self.max_size {
            self.insert_not_full(key, value);
            Ok(())
        } else {
            self.insert_displacing(key, value)
        }
    }

    /// Inserts a fresh id into a set that is not yet full, at its sorted
    /// position.
    #[verifier::rlimit(100)]
    fn insert_not_full(&mut self, key: u64, value: NodeInfo)
        requires
            old(self).wf(),
            value.id == key,
            !old(self).keys().contains(key),
            !old(self).spec_is_full(),
        ensures
            final(self).wf(),
            final(self).spec_max_size() == old(self).spec_max_size(),
            final(self).spec_node_key() == old(self).spec_node_key(),
            final(self).keys() == old(self).keys().insert(
                spec_pred_idx(old(self).keys(), key) + 1,
                key,
            ),
            final(self).infos() == old(self).infos().insert(
                spec_pred_idx(old(self).keys(), key) + 1,
                value,
            ),
    {
        let ghost s0 = self.keys();
        let (found, pred) = scan_pred(&self.set, key);
        proof {
            lemma_pred_idx(s0, key);
            lemma_sorted_contains(s0, key);
        }
        let p = if found {
            pred + 1
        } else {
            0
        };
        let ghost pre = self.set@;
        self.set.insert(p, KeyValuePair::new(key, value));
        proof {
            pre.insert_ensures(p as int, (KeyValuePair { key, value }));
            assert(self.keys() =~= s0.insert(p as int, key));
            assert(self.infos() =~= old(self).infos().insert(p as int, value));
            s0.insert_ensures(p as int, key);
            old(self).infos().insert_ensures(p as int, value);
        }
        if p <= self.node_idx {
            self.node_idx = self.node_idx + 1;
        }
        if self.set.len() == self.max_size {
            self.last_idx = cyc(self.node_idx + self.max_size / 2, self.max_size);
            self.first_idx = cyc(self.last_idx + 1, self.max_size);
        }
        proof {
            assert(spec_sorted_strict(self.keys())) by {
                assert(forall|i: int| 0 <= i <= pred && found ==> #[trigger] s0[i] <= s0[pred as int]);
            }
            assert(self.spec_node_key() == old(self).spec_node_key());
        }
    }

    /// Inserts a fresh id into a full set, displacing the furthest entry on
    /// the id's own side of self; fails when the id lies outside the arc.
    fn insert_displacing(&mut self, key: u64, value: NodeInfo) -> (r: Result<(), Error>)
        requires
            old(self).wf(),
            value.id == key,
            !old(self).keys().contains(key),
            old(self).spec_is_full(),
        ensures
            final(self).spec_max_size() == old(self).spec_max_size(),
            match r {
                Ok(_) => {
                    &&& final(self).wf()
                    &&& final(self).spec_node_key() == old(self).spec_node_key()
                    &&& {
                        let owner = spec_owner_idx(old(self).keys(), key);
                        let displaced = if old(self).spec_is_cw(owner) {
                            old(self).spec_last_idx()
                        } else {
                            old(self).spec_first_idx()
                        };
                        let reduced_keys = old(self).keys().remove(displaced);
                        let reduced_infos = old(self).infos().remove(displaced);
                        let p = spec_pred_idx(reduced_keys, key) + 1;
                        &&& owner != old(self).spec_last_idx()
                        &&& final(self).keys() == reduced_keys.insert(p, key)
                        &&& final(self).infos() == reduced_infos.insert(p, value)
                    }
                },
                Err(e) => {
                    &&& e is Internal
                    &&& *final(self) == *old(self)
                    &&& spec_owner_idx(old(self).keys(), key) == old(self).spec_last_idx()
                },
            },
    {
        let ghost s0 = self.keys();
        let n = self.set.len();
        let (found, pred) = scan_pred(&self.set, key);
        proof {
            lemma_pred_idx(s0, key);
            lemma_sorted_contains(s0, key);
        }
        let owner_idx = if found {
            pred
        } else {
            n - 1
        };
        if owner_idx == self.last_idx {
            return Err(Error::Internal("key cannot be outside set".to_owned()));
        }

        let is_cw = if self.last_idx > self.node_idx {
            self.node_idx <= owner_idx && owner_idx <= self.last_idx
        } else {
            (self.node_idx <= owner_idx) || (owner_idx <= self.last_idx)
        };

        let displaced = if is_cw {
            self.last_idx
        } else {
            self.first_idx
        };
        proof {
            lemma_full_edges_not_node(*old(self));
        }

        self.remove_index(displaced);
        let ghost reduced_keys = s0.remove(displaced as int);
        proof {
            assert forall|j: int| 0 <= j < reduced_keys.len() implies reduced_keys[j] != key by {
                if j < displaced as int {
                    assert(reduced_keys[j] == s0[j]);
                } else {
                    assert(reduced_keys[j] == s0[j + 1]);
                }
            }
            assert(!reduced_keys.contains(key));
        }
        self.insert_not_full(key, value);
        Ok(())
    }

    /// Excises the entry at `idx`, which must not be self's.
    fn remove_index(&mut self, idx: usize)
        requires
            old(self).wf(),
            idx < old(self).keys().len(),
            idx != old(self).spec_node_idx(),
            old(self).keys().len() >= 2,
        ensures
            final(self).wf(),
            !final(self).spec_is_full(),
            final(self).spec_max_size() == old(self).spec_max_size(),
            final(self).spec_node_key() == old(self).spec_node_key(),
            final(self).keys() == old(self).keys().remove(idx as int),
            final(self).infos() == old(self).infos().remove(idx as int),
    {
        self.set.remove(idx);
        proof {
            assert(self.keys() =~= old(self).keys().remove(idx as int));
            assert(self.infos() =~= old(self).infos().remove(idx as int));
        }
        if idx < self.node_idx {
            self.node_idx = self.node_idx - 1;
        }
        proof {
            assert(self.spec_node_key() == old(self).spec_node_key());
        }
    }

    /// Removes the peer with the given id from the leaf set. Refuses to
    /// remove self, and fails when the id is not present.
    pub fn remove(&mut self, key: u64) -> (r: Result<(), Error>)
        requires
            old(self).wf(),
        ensures
            final(self).spec_max_size() == old(self).spec_max_size(),
            match r {
                Ok(_) => {
                    &&& old(self).keys().contains(key)
                    &&& key != old(self).spec_node_key()
                    &&& final(self).wf()
                    &&& !final(self).spec_is_full()
                    &&& final(self).spec_node_key() == old(self).spec_node_key()
                    &&& {
                        let p = spec_pred_idx(old(self).keys(), key);
                        &&& final(self).keys() == old(self).keys().remove(p)
                        &&& final(self).infos() == old(self).infos().remove(p)
                    }
                },
                Err(e) => {
                    &&& e is Internal
                    &&& *final(self) == *old(self)
                    &&& (!old(self).keys().contains(key) || key == old(self).spec_node_key())
                },
            },
    {
        let ghost s0 = self.keys();
        let n = self.set.len();
        let (found, pred) = scan_pred(&self.set, key);
        proof {
            lemma_pred_idx(s0, key);
            lemma_sorted_contains(s0, key);
        }

        if !found || self.set[pred].key != key {
            return Err(Error::Internal("cannot find element with key".to_owned()));
        }

        if pred == self.node_idx {
            return Err(Error::Internal("cannot remove node from leaf set".to_owned()));
        }

        self.remove_index(pred);
        Ok(())
    }
}

/// A full set's edge indices never point at self.
proof fn lemma_full_edges_not_node(l: LeafSet)
    requires
        l.wf(),
        l.spec_is_full(),
    ensures
        l.spec_last_idx() != l.spec_node_idx(),
        l.spec_first_idx() != l.spec_node_idx(),
        0 <= l.spec_last_idx() < l.keys().len(),
        0 <= l.spec_first_idx() < l.keys().len(),
{
}

/// How the public views of a well-formed leaf set line up: as many
/// descriptors as ids, ids sorted strictly, each descriptor carrying its
/// id, self at a valid central index, and the edge indices valid whenever
/// the set is full.
pub proof fn lemma_leaf_views(l: &LeafSet)
    requires
        l.wf(),
    ensures
        l.keys().len() == l.infos().len(),
        1 <= l.keys().len() <= l.spec_max_size(),
        spec_sorted_strict(l.keys()),
        forall|i: int| 0 <= i < l.keys().len() ==> (#[trigger] l.infos()[i]).id == l.keys()[i],
        0 <= l.spec_node_idx() < l.keys().len(),
        l.keys()[l.spec_node_idx()] == l.spec_node_key(),
        l.spec_is_full() ==> 0 <= l.spec_first_idx() < l.keys().len() && 0 <= l.spec_last_idx()
            < l.keys().len(),
{
    if l.spec_is_full() {
        lemma_full_edges_not_node(*l);
    }
}

/// Where the central and edge indices of a well-formed leaf set stand:
/// self sits at the predecessor index of its own id, and a full set's
/// furthest clockwise entry is `k` cyclic steps past self, the furthest
/// counter-clockwise entry one step further.
pub proof fn lemma_leaf_edge_formulas(l: &LeafSet)
    requires
        l.wf(),
    ensures
        l.spec_node_idx() == spec_pred_idx(l.keys(), l.spec_node_key()),
        l.spec_is_full() ==> l.spec_last_idx() == spec_cyc(
            l.spec_node_idx() + l.spec_max_size() / 2,
            l.spec_max_size(),
        ),
        l.spec_is_full() ==> l.spec_first_idx() == spec_cyc(
            l.spec_last_idx() + 1,
            l.spec_max_size(),
        ),
{
    lemma_pred_idx(l.keys(), l.spec_node_key());
    lemma_sorted_contains(l.keys(), l.spec_node_key());
    let p = spec_pred_idx(l.keys(), l.spec_node_key());
    if p < l.spec_node_idx() {
        assert(l.keys()[p] < l.keys()[l.spec_node_idx()]);
    } else if p > l.spec_node_idx() {
        assert(l.keys()[l.spec_node_idx()] < l.keys()[p]);
    }
}

/// In a sorted sequence, an id is present exactly when the predecessor scan
/// lands on it.
pub proof fn lemma_sorted_contains(s: Seq<u64>, key: u64)
    requires
        spec_sorted_strict(s),
    ensures
        s.contains(key) <==> (spec_pred_idx(s, key) >= 0 && s[spec_pred_idx(s, key)] == key),
{
    lemma_pred_idx(s, key);
    let p = spec_pred_idx(s, key);
    if s.contains(key) {
        let i = choose|i: int| 0 <= i < s.len() && s[i] == key;
        assert(0 <= i < s.len() && s[i] == key);
        if i > p {
            assert(s[i] > key);
        } else if i < p {
            assert(s[i] < s[p]);
        }
    }
}

/// Scans for the greatest index whose key is at most `key`.
fn scan_pred(set: &Vec<KeyValuePair<u64, NodeInfo>>, key: u64) -> (r: (bool, usize))
    ensures
        ({
            let s = set@.map(|i: int, kv: KeyValuePair<u64, NodeInfo>| kv.key);
            &&& (r.0 <==> spec_pred_idx(s, key) >= 0)
            &&& (r.0 ==> r.1 == spec_pred_idx(s, key))
        }),
{
    let ghost s = set@.map(|i: int, kv: KeyValuePair<u64, NodeInfo>| kv.key);
    let n = set.len();
    let mut found = false;
    let mut pred: usize = 0;
    let mut i: usize = 0;
    proof {
        assert(s.take(0) =~= Seq::<u64>::empty());
    }
    while i < n
        invariant
            s == set@.map(|i: int, kv: KeyValuePair<u64, NodeInfo>| kv.key),
            n == set.len(),
            0 <= i <= n,
            found <==> spec_pred_idx(s.take(i as int), key) >= 0,
            found ==> pred == spec_pred_idx(s.take(i as int), key),
        decreases n - i,
    {
        proof {
            lemma_pred_idx_step(s, key, i as int);
        }
        if set[i].key <= key {
            pred = i;
            found = true;
        }
        i = i + 1;
    }
    proof {
        assert(s.take(n as int) =~= s);
    }
    (found, pred)
}

/// Builds a leaf set directly from a sorted vector of ids, with `initial`
/// as self; the descriptors carry empty addresses.
pub fn leafset_from_vec(k: usize, initial: u64, v: Vec<u64>) -> (r: LeafSet)
    requires
        1 <= k <= usize::MAX / 5,
        spec_sorted_strict(v@),
        v@.contains(initial),
        1 <= v@.len() <= 2 * k + 1,
    ensures
        r.wf(),
        r.keys() == v@,
        r.spec_max_size() == 2 * k + 1,
        r.spec_node_key() == initial,
        forall|i: int| 0 <= i < v@.len() ==> (#[trigger] r.infos()[i]).id == v@[i],
{
    let n = v.len();
    let mut set: Vec<KeyValuePair<u64, NodeInfo>> = Vec::new();
    let mut i: usize = 0;
    while i < n
        invariant
            n == v.len(),
            0 <= i <= n,
            set@.len() == i,
            forall|j: int|
                0 <= j < i ==> (#[trigger] set@[j]).key == v@[j] && set@[j].value.id == v@[j],
        decreases n - i,
    {
        set.push(KeyValuePair::new(v[i], NodeInfo::new(v[i], "")));
        i = i + 1;
    }

    let ghost witness = choose|j: int| 0 <= j < v@.len() && v@[j] == initial;
    let mut node_idx: usize = 0;
    let mut j: usize = 0;
    while j < n
        invariant
            n == v.len(),
            0 <= j <= n,
            v@.contains(initial),
            0 <= witness < v@.len() && v@[witness] == initial,
            j <= witness || (node_idx < n && v@[node_idx as int] == initial),
        decreases n - j,
    {
        if v[j] == initial {
            node_idx = j;
        }
        j = j + 1;
    }

    let max_size = 2 * k + 1;
    let mut leaf = LeafSet { max_size, node_idx, first_idx: 0, last_idx: 0, set };
    if leaf.set.len() == leaf.max_size {
        leaf.last_idx = cyc(leaf.node_idx + leaf.max_size / 2, leaf.max_size);
        leaf.first_idx = cyc(leaf.last_idx + 1, leaf.max_size);
    }
    proof {
        assert(leaf.keys() =~= v@);
    }
    leaf
}

/// Lists the ids a leaf set holds, in ascending order.
pub fn set_to_vec(leafset: &LeafSet) -> (r: Vec<u64>)
    ensures
        r@ == leafset.keys(),
{
    let n = leafset.set.len();
    let mut r: Vec<u64> = Vec::new();
    let mut i: usize = 0;
    while i < n
        invariant
            n == leafset.set.len(),
            0 <= i <= n,
            r@ == leafset.keys().take(i as int),
        decreases n - i,
    {
        r.push(leafset.set[i].key);
        proof {
            assert(r@ =~= leafset.keys().take(i + 1));
        }
        i = i + 1;
    }
    proof {
        assert(leafset.keys().take(n as int) =~= leafset.keys());
    }
    r
}

/// The cyclic offset of index `i` from self's index in a set of `m`
/// entries: `0` for self, `1` for the first clockwise entry, `m - 1` for
/// the first counter-clockwise one.
pub open spec fn spec_cw_offset(l: &LeafSet, i: int) -> int {
    if i >= l.spec_node_idx() {
        i - l.spec_node_idx()
    } else {
        i - l.spec_node_idx() + l.keys().len()
    }
}

/// The leaf-set invariant: self is present, the set never exceeds `2k + 1`
/// entries, its ids are distinct, and a full set splits its `2k` other
/// entries into exactly `k` on the clockwise side of self (cyclic offsets
/// `1` through `k`) and `k` on the counter-clockwise side (the remaining
/// offsets).
pub proof fn lemma_leaf_set_invariant(l: &LeafSet)
    requires
        l.wf(),
    ensures
        l.keys().contains(l.spec_node_key()),
        1 <= l.keys().len() <= l.spec_max_size(),
        forall|i: int, j: int| 0 <= i < j < l.keys().len() ==> l.keys()[i] != l.keys()[j],
        l.spec_max_size() >= 3 && l.spec_max_size() % 2 == 1,
        l.spec_is_full() ==> {
            let half = (l.spec_max_size() - 1) / 2;
            forall|i: int|
                0 <= i < l.keys().len() && i != l.spec_node_idx() ==> (l.spec_is_cw(i) <==> 1
                    <= #[trigger] spec_cw_offset(l, i) <= half)
        },
{
    assert(l.keys()[l.spec_node_idx()] == l.spec_node_key());
    if l.spec_is_full() {
        let half = (l.spec_max_size() - 1) / 2;
        let m = l.keys().len() as int;
        let node = l.spec_node_idx();
        assert forall|i: int| 0 <= i < m && i != node implies (l.spec_is_cw(i) <==> 1
            <= #[trigger] spec_cw_offset(l, i) <= half) by {
            assert(l.spec_last_idx() == spec_cyc(node + half, m));
            if node + half < m {
                assert(l.spec_last_idx() == node + half);
            } else {
                assert(l.spec_last_idx() == node + half - m);
            }
        }
    }
}

/// Whether `e` lies on the clockwise side of `key`.
fn clockwise_of(key: u64, e: u64) -> (r: bool)
    ensures
        r == spec_clockwise_of(key, e),
{
    Ring64::counter_clockwise_distance(e, key) <= Ring64::counter_clockwise_distance(key, e)
}

/// Reduces `i` into `[0, m)` for `i` below `2m`.
fn cyc(i: usize, m: usize) -> (r: usize)
    requires
        m >= 1,
        i < 2 * m,
    ensures
        r == spec_cyc(i as int, m as int),
{
    if i < m {
        i
    } else {
        i - m
    }
}

} // verus!

//! The per-peer key/value store: an in-memory map from 64-bit key to opaque
//! byte value, with the filtered scan used for key handoff.

use vstd::prelude::*;

use crate::ring::spec_is_in_range;

verus! {

/// No key occurs twice in the entry sequence.
pub open spec fn spec_keys_distinct(s: Seq<(u64, Seq<u8>)>) -> bool {
    forall|i: int, j: int| 0 <= i < j < s.len() ==> s[i].0 != s[j].0
}

/// The entry sequence read as a mathematical map from key to value.
pub open spec fn spec_store_map(s: Seq<(u64, Seq<u8>)>) -> Map<u64, Seq<u8>> {
    Map::new(
        |k: u64| exists|i: int| 0 <= i < s.len() && s[i].0 == k,
        |k: u64| s[spec_index_of_key(s, k)].1,
    )
}

/// The index at which `key` is stored, when it is stored at all.
pub open spec fn spec_index_of_key(s: Seq<(u64, Seq<u8>)>, key: u64) -> int {
    choose|i: int| 0 <= i < s.len() && s[i].0 == key
}

/// An entry at index `i` witnesses both membership and the value of its key
/// in the map reading of the sequence.
pub proof fn lemma_store_map_at(s: Seq<(u64, Seq<u8>)>, i: int)
    requires
        spec_keys_distinct(s),
        0 <= i < s.len(),
    ensures
        spec_store_map(s).contains_key(s[i].0),
        spec_store_map(s)[s[i].0] == s[i].1,
        spec_index_of_key(s, s[i].0) == i,
{
    let k = s[i].0;
    assert(0 <= i < s.len() && s[i].0 == k);
    let w = spec_index_of_key(s, k);
    assert(0 <= w < s.len() && s[w].0 == k);
    if w < i {
        assert(s[w].0 != s[i].0);
    } else if w > i {
        assert(s[i].0 != s[w].0);
    }
}

/// A key in the map reading of the sequence is stored at its index.
pub proof fn lemma_store_map_contains(s: Seq<(u64, Seq<u8>)>, k: u64)
    requires
        spec_store_map(s).contains_key(k),
    ensures
        0 <= spec_index_of_key(s, k) < s.len(),
        s[spec_index_of_key(s, k)].0 == k,
{
    let w = choose|i: int| 0 <= i < s.len() && s[i].0 == k;
    assert(0 <= w < s.len() && s[w].0 == k);
    assert(0 <= spec_index_of_key(s, k) < s.len() && s[spec_index_of_key(s, k)].0 == k);
}

/// Overwriting the value at an existing index inserts under its key.
proof fn lemma_store_map_update(s: Seq<(u64, Seq<u8>)>, i: int, v: Seq<u8>)
    requires
        spec_keys_distinct(s),
        0 <= i < s.len(),
    ensures
        spec_keys_distinct(s.update(i, (s[i].0, v))),
        spec_store_map(s.update(i, (s[i].0, v))) == spec_store_map(s).insert(s[i].0, v),
    decreases s.len(),
{
    let k = s[i].0;
    let t = s.update(i, (k, v));
    assert(spec_keys_distinct(t));
    assert forall|x: u64| #[trigger] spec_store_map(t).contains_key(x) implies spec_store_map(
        s,
    ).insert(k, v).contains_key(x) && spec_store_map(t)[x] == spec_store_map(s).insert(k, v)[x] by {
        lemma_store_map_contains(t, x);
        let j = spec_index_of_key(t, x);
        lemma_store_map_at(t, j);
        if x == k {
            assert(t[i].0 == k);
            lemma_store_map_at(t, i);
        } else {
            assert(s[j].0 == x);
            lemma_store_map_at(s, j);
        }
    }
    assert forall|x: u64| spec_store_map(s).insert(k, v).contains_key(x) implies spec_store_map(
        t,
    ).contains_key(x) by {
        if x == k {
            lemma_store_map_at(t, i);
        } else {
            lemma_store_map_contains(s, x);
            let j = spec_index_of_key(s, x);
            assert(t[j].0 == x);
            lemma_store_map_at(t, j);
        }
    }
    assert(spec_store_map(t) =~= spec_store_map(s).insert(k, v));
}

/// Appending an entry with a fresh key inserts under that key.
proof fn lemma_store_map_push(s: Seq<(u64, Seq<u8>)>, k: u64, v: Seq<u8>)
    requires
        spec_keys_distinct(s),
        forall|i: int| 0 <= i < s.len() ==> s[i].0 != k,
    ensures
        spec_keys_distinct(s.push((k, v))),
        spec_store_map(s.push((k, v))) == spec_store_map(s).insert(k, v),
{
    let t = s.push((k, v));
    assert(forall|i: int| 0 <= i < s.len() ==> t[i] == s[i]);
    assert(t[s.len() as int] == (k, v));
    assert(spec_keys_distinct(t));
    assert forall|x: u64| #[trigger] spec_store_map(t).contains_key(x) implies spec_store_map(
        s,
    ).insert(k, v).contains_key(x) && spec_store_map(t)[x] == spec_store_map(s).insert(k, v)[x] by {
        lemma_store_map_contains(t, x);
        let j = spec_index_of_key(t, x);
        lemma_store_map_at(t, j);
        if x == k {
            lemma_store_map_at(t, s.len() as int);
        } else {
            assert(j < s.len());
            lemma_store_map_at(s, j);
        }
    }
    assert forall|x: u64| spec_store_map(s).insert(k, v).contains_key(x) implies spec_store_map(
        t,
    ).contains_key(x) by {
        if x == k {
            lemma_store_map_at(t, s.len() as int);
        } else {
            lemma_store_map_contains(s, x);
            let j = spec_index_of_key(s, x);
            lemma_store_map_at(t, j);
        }
    }
    assert(spec_store_map(t) =~= spec_store_map(s).insert(k, v));
}

/// Removing the entry at an index removes its key.
proof fn lemma_store_map_remove(s: Seq<(u64, Seq<u8>)>, i: int)
    requires
        spec_keys_distinct(s),
        0 <= i < s.len(),
    ensures
        spec_keys_distinct(s.remove(i)),
        spec_store_map(s.remove(i)) == spec_store_map(s).remove(s[i].0),
{
    let k = s[i].0;
    let t = s.remove(i);
    assert(forall|j: int| 0 <= j < i ==> t[j] == s[j]);
    assert(forall|j: int| i <= j < t.len() ==> t[j] == s[j + 1]);
    assert(spec_keys_distinct(t));
    assert forall|x: u64| #[trigger] spec_store_map(t).contains_key(x) implies spec_store_map(
        s,
    ).remove(k).contains_key(x) && spec_store_map(t)[x] == spec_store_map(s).remove(k)[x] by {
        lemma_store_map_contains(t, x);
        let j = spec_index_of_key(t, x);
        lemma_store_map_at(t, j);
        if j < i {
            lemma_store_map_at(s, j);
        } else {
            lemma_store_map_at(s, j + 1);
        }
    }
    assert forall|x: u64| spec_store_map(s).remove(k).contains_key(x) implies spec_store_map(
        t,
    ).contains_key(x) by {
        lemma_store_map_contains(s, x);
        let j = spec_index_of_key(s, x);
        if j < i {
            lemma_store_map_at(t, j);
        } else {
            assert(j > i);
            lemma_store_map_at(t, j - 1);
        }
    }
    assert(spec_store_map(t) =~= spec_store_map(s).remove(k));
}

/// An in-memory map from 64-bit key to byte vector.
///
/// Keys appear via `set`, vanish via `delete` or handoff; values are opaque
/// to the core.
#[derive(Debug)]
pub struct Store {
    entries: Vec<(u64, Vec<u8>)>,
}

impl Store {
    /// The entries as stored, in insertion order.
    pub closed spec fn entries_seq(&self) -> Seq<(u64, Seq<u8>)> {
        self.entries@.map(|i: int, e: (u64, Vec<u8>)| (e.0, e.1@))
    }

    /// No key occurs twice.
    pub open spec fn wf(&self) -> bool {
        spec_keys_distinct(self.entries_seq())
    }

    /// The store read as a mathematical map from key to value.
    pub open spec fn view(&self) -> Map<u64, Seq<u8>> {
        spec_store_map(self.entries_seq())
    }

    /// Creates an empty store.
    pub fn new() -> (r: Store)
        ensures
            r.wf(),
            r@ == Map::<u64, Seq<u8>>::empty(),
            r.entries_seq() == Seq::<(u64, Seq<u8>)>::empty(),
    {
        let r = Store { entries: Vec::new() };
        proof {
            assert(r.entries_seq() =~= Seq::<(u64, Seq<u8>)>::empty());
            assert(r@ =~= Map::<u64, Seq<u8>>::empty());
        }
        r
    }

    /// Returns the value stored under `key`, if any.
    pub fn get(&self, key: &u64) -> (r: Option<Vec<u8>>)
        requires
            self.wf(),
        ensures
            match r {
                Some(v) => self@.contains_key(*key) && v@ == self@[*key],
                None => !self@.contains_key(*key),
            },
    {
        let ghost s = self.entries_seq();
        let n = self.entries.len();
        let mut i: usize = 0;
        while i < n
            invariant
                self.wf(),
                s == self.entries_seq(),
                n == self.entries.len(),
                0 <= i <= n,
                forall|j: int| 0 <= j < i ==> s[j].0 != *key,
            decreases n - i,
        {
            if self.entries[i].0 == *key {
                proof {
                    lemma_store_map_at(s, i as int);
                }
                return Some(clone_bytes(&self.entries[i].1));
            }
            i = i + 1;
        }
        proof {
            if self@.contains_key(*key) {
                lemma_store_map_contains(s, *key);
            }
        }
        None
    }

    /// Stores `value` under `key`, returning the value previously stored
    /// there, if any.
    pub fn set(&mut self, key: &u64, value: &[u8]) -> (r: Option<Vec<u8>>)
        requires
            old(self).wf(),
        ensures
            final(self).wf(),
            final(self)@ == old(self)@.insert(*key, value@),
            match r {
                Some(v) => old(self)@.contains_key(*key) && v@ == old(self)@[*key],
                None => !old(self)@.contains_key(*key),
            },
    {
        let ghost s = self.entries_seq();
        let n = self.entries.len();
        let mut i: usize = 0;
        while i < n
            invariant
                self == old(self),
                self.wf(),
                s == self.entries_seq(),
                n == self.entries.len(),
                0 <= i <= n,
                forall|j: int| 0 <= j < i ==> s[j].0 != *key,
            decreases n - i,
        {
            if self.entries[i].0 == *key {
                proof {
                    lemma_store_map_at(s, i as int);
                    lemma_store_map_update(s, i as int, value@);
                }
                let old_value = clone_bytes(&self.entries[i].1);
                self.entries[i] = (*key, slice_to_vec_u8(value));
                proof {
                    assert(self.entries_seq() =~= s.update(i as int, (*key, value@)));
                }
                return Some(old_value);
            }
            i = i + 1;
        }
        proof {
            lemma_store_map_push(s, *key, value@);
            if old(self)@.contains_key(*key) {
                lemma_store_map_contains(s, *key);
            }
        }
        self.entries.push((*key, slice_to_vec_u8(value)));
        proof {
            assert(self.entries_seq() =~= s.push((*key, value@)));
        }
        None
    }

    /// Removes `key` from the store, returning the value that was stored
    /// there, if any.
    pub fn delete(&mut self, key: &u64) -> (r: Option<Vec<u8>>)
        requires
            old(self).wf(),
        ensures
            final(self).wf(),
            final(self)@ == old(self)@.remove(*key),
            match r {
                Some(v) => old(self)@.contains_key(*key) && v@ == old(self)@[*key],
                None => !old(self)@.contains_key(*key),
            },
    {
        let ghost s = self.entries_seq();
        let n = self.entries.len();
        let mut i: usize = 0;
        while i < n
            invariant
                self == old(self),
                self.wf(),
                s == self.entries_seq(),
                n == self.entries.len(),
                0 <= i <= n,
                forall|j: int| 0 <= j < i ==> s[j].0 != *key,
            decreases n - i,
        {
            if self.entries[i].0 == *key {
                proof {
                    lemma_store_map_at(s, i as int);
                    lemma_store_map_remove(s, i as int);
                }
                let removed = self.entries.remove(i);
                proof {
                    assert(self.entries_seq() =~= s.remove(i as int));
                }
                return Some(removed.1);
            }
            i = i + 1;
        }
        proof {
            if old(self)@.contains_key(*key) {
                lemma_store_map_contains(s, *key);
            }
            assert(self@ =~= old(self)@.remove(*key));
        }
        None
    }

    /// Lists every stored entry, in storage order.
    pub fn list(&self) -> (r: Vec<(u64, Vec<u8>)>)
        requires
            self.wf(),
        ensures
            r@.map(|i: int, e: (u64, Vec<u8>)| (e.0, e.1@)) == self.entries_seq(),
    {
        let n = self.entries.len();
        let mut r: Vec<(u64, Vec<u8>)> = Vec::new();
        let mut i: usize = 0;
        while i < n
            invariant
                n == self.entries.len(),
                0 <= i <= n,
                r.len() == i,
                forall|j: int|
                    0 <= j < i ==> (#[trigger] r@[j]).0 == self.entries@[j].0 && r@[j].1@
                        == self.entries@[j].1@,
            decreases n - i,
        {
            r.push((self.entries[i].0, clone_bytes(&self.entries[i].1)));
            i = i + 1;
        }
        proof {
            assert(r@.map(|i: int, e: (u64, Vec<u8>)| (e.0, e.1@)) =~= self.entries_seq());
        }
        r
    }

    /// Lists the entries whose key lies outside the clockwise range from
    /// `from` to `to`: the scan that selects the keys a peer hands off.
    pub fn get_entries(&self, from: u64, to: u64) -> (r: Vec<(u64, Vec<u8>)>)
        requires
            self.wf(),
        ensures
            r@.map(|i: int, e: (u64, Vec<u8>)| (e.0, e.1@)) == self.entries_seq().filter(
                |e: (u64, Seq<u8>)| !spec_is_in_range(from, to, e.0),
            ),
    {
        let ghost pred = |e: (u64, Seq<u8>)| !spec_is_in_range(from, to, e.0);
        let n = self.entries.len();
        let mut r: Vec<(u64, Vec<u8>)> = Vec::new();
        let mut i: usize = 0;
        proof {
            assert(self.entries_seq().take(0).filter(pred) =~= Seq::<(u64, Seq<u8>)>::empty());
            assert(r@.map(|i: int, e: (u64, Vec<u8>)| (e.0, e.1@)) =~= Seq::<(
                u64,
                Seq<u8>,
            )>::empty());
        }
        while i < n
            invariant
                self.wf(),
                n == self.entries.len(),
                0 <= i <= n,
                pred == (|e: (u64, Seq<u8>)| !spec_is_in_range(from, to, e.0)),
                r@.map(|i: int, e: (u64, Vec<u8>)| (e.0, e.1@)) == self.entries_seq().take(
                    i as int,
                ).filter(pred),
            decreases n - i,
        {
            let ghost prefix = self.entries_seq().take(i as int);
            let key = self.entries[i].0;
            let in_range = (from < to && (from < key && key <= to)) || (from > to && (key > from
                || key <= to));
            let ghost prev_mapped = r@.map(|i: int, e: (u64, Vec<u8>)| (e.0, e.1@));
            if !in_range {
                r.push((key, clone_bytes(&self.entries[i].1)));
            }
            proof {
                let next = self.entries_seq().take(i + 1);
                assert(next.drop_last() =~= prefix);
                assert(next.last() == self.entries_seq()[i as int]);
                assert(next =~= prefix.push(self.entries_seq()[i as int]));
                seq_filter_push(prefix, self.entries_seq()[i as int], pred);
                if !in_range {
                    assert(r@.map(|i: int, e: (u64, Vec<u8>)| (e.0, e.1@)) =~= prev_mapped.push(
                        self.entries_seq()[i as int],
                    ));
                }
            }
            i = i + 1;
        }
        proof {
            assert(self.entries_seq().take(n as int) =~= self.entries_seq());
        }
        r
    }
}

proof fn seq_filter_push<A>(s: Seq<A>, x: A, pred: spec_fn(A) -> bool)
    ensures
        s.push(x).filter(pred) == if pred(x) {
            s.filter(pred).push(x)
        } else {
            s.filter(pred)
        },
{
    reveal_with_fuel(Seq::filter, 2);
    assert(s.push(x).drop_last() =~= s);
    assert(s.push(x).last() == x);
}

/// Copies an owned byte vector.
fn clone_bytes(v: &Vec<u8>) -> (r: Vec<u8>)
    ensures
        r@ == v@,
{
    let n = v.len();
    let mut r: Vec<u8> = Vec::new();
    let mut i: usize = 0;
    while i < n
        invariant
            n == v.len(),
            0 <= i <= n,
            r@ == v@.take(i as int),
        decreases n - i,
    {
        r.push(v[i]);
        proof {
            assert(r@ =~= v@.take(i + 1));
        }
        i = i + 1;
    }
    proof {
        assert(v@.take(n as int) =~= v@);
    }
    r
}

/// Copies a byte slice into an owned vector.
fn slice_to_vec_u8(v: &[u8]) -> (r: Vec<u8>)
    ensures
        r@ == v@,
{
    let n = v.len();
    let mut r: Vec<u8> = Vec::new();
    let mut i: usize = 0;
    while i < n
        invariant
            n == v@.len(),
            0 <= i <= n,
            r@ == v@.take(i as int),
        decreases n - i,
    {
        r.push(v[i]);
        proof {
            assert(r@ =~= v@.take(i + 1));
        }
        i = i + 1;
    }
    proof {
        assert(v@.take(n as int) =~= v@);
    }
    r
}

} // verus!

//! Small shared value types: the key/value pair that the routing structures
//! store, and the network configuration.

use vstd::prelude::*;

verus! {

/// A key paired with the value it indexes.
#[derive(Debug)]
pub struct KeyValuePair<T, U> {
    pub key: T,
    pub value: U,
}

impl<T, U> KeyValuePair<T, U> {
    /// Pairs `key` with `value`.
    pub fn new(key: T, value: U) -> (r: Self)
        ensures
            r.key == key,
            r.value == value,
    {
        Self { key, value }
    }

    /// The key of the pair.
    pub fn get_key(&self) -> (r: &T)
        ensures
            r == &self.key,
    {
        &self.key
    }

    /// The value of the pair.
    pub fn get_value(&self) -> (r: &U)
        ensures
            r == &self.value,
    {
        &self.value
    }
}

impl<T: Clone, U: Clone> Clone for KeyValuePair<T, U> {
    fn clone(&self) -> (r: Self)
        ensures
            cloned(self.key, r.key),
            cloned(self.value, r.value),
    {
        KeyValuePair { key: self.key.clone(), value: self.value.clone() }
    }
}

/// Pastry network configuration: `k` is the number of neighbors kept on each
/// side of a peer in its leaf set.
#[derive(Debug, Clone)]
pub struct Config {
    pub k: usize,
}

impl Config {
    /// Creates a new Pastry `Config` with leaf sets of half-width
    /// `leaf_set_k`.
    pub fn new(leaf_set_k: usize) -> (r: Self)
        ensures
            r.k == leaf_set_k,
    {
        Config { k: leaf_set_k }
    }
}

} // verus!

//! A Pastry-style structured peer-to-peer overlay providing a distributed
//! hash table with put/get/delete semantics over a 64-bit identifier ring.
//!
//! The crate holds the overlay engine: ring arithmetic, the leaf set and
//! routing table data structures, the prefix-matching routing cascade, the
//! join/arrival/handoff protocol decisions, and the per-peer in-memory store.
//! Transport, async plumbing and process bootstrapping live outside of it;
//! the engine is written as functions from plain state and requests to plain
//! decisions and responses, each with a proved contract.

pub mod error;
pub mod hasher;
pub mod leaf;
pub mod node;
pub mod ring;
pub mod service;
pub mod rpc;
pub mod shared;
pub mod store;
pub mod table;
pub mod util;

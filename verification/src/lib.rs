//! A persistent extent cache: fixed formats, slot and byte allocators, the
//! mutable index overlay, checkpoint frontiers, reclaim and admission rules.

use vstd::prelude::*;

pub mod cache;
pub mod checksum;
pub mod counter;
pub mod entry;
pub mod error;
pub mod file;
pub mod format;
pub mod foyer_engine;
pub mod frequency;
pub mod layout;
pub mod model;
pub mod segment;
pub mod shared;
pub mod sort;
pub mod store;
pub mod text;
pub mod wire;

verus! {

} // verus!

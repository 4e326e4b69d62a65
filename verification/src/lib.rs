//! Matching core of a decentralized exchange.
//!
//! The crate maintains per-asset-pair order books and executes
//! price-time-priority matching between incoming orders and resting orders,
//! emitting a bounded sequence of settlement events.  The three central
//! pieces are a bounded indexed priority queue of orders (`order_heap`), an
//! order-id-to-slot index built as a binary trie over fixed arenas
//! (`index_map`), and an iterative matching algorithm (`matching_engine`).
//! Settlement hand-off goes through a bounded per-user event outbox
//! (`event_list`) drained by a later ledger-update step (`dex`).

use vstd::prelude::*;

pub mod keys;
pub mod errors;
pub mod order_node;
pub mod index_map;
pub mod order_heap;
pub mod event_list;
pub mod ledger;
pub mod matching_engine;
pub mod dex;

verus! {

/// Number of order slots in one side's heap; also the number of leaves the
/// index trie can hold, so every resting order can be indexed by id.
pub const ORDER_HEAP_CAPACITY: usize = 64;

/// Bound on the entries one matching call may produce, and the capacity of
/// the per-user event outbox that stores them for settlement.
pub const MAX_EVENTS: usize = 16;

/// Number of distinct token mints one user's ledger can register.
pub const MAX_TOKEN_MINTS: usize = 32;

/// Bound on the number of simultaneously resting orders per user.
pub const USER_ORDERBOOK_CAP: usize = 32;

} // verus!

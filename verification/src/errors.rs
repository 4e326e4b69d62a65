//! Error taxonomy of the matching core.
//!
//! Capacity errors (`OrderHeapFull`, `EventListFull`, `MaxLeavesReached`,
//! `MaxMiddlesReached`, `MaxTokensReached`, `OrderbookCapacityReached`) are
//! expected, recoverable conditions.  Lookup errors (`OrderNotFound`,
//! `KeyNotFound`) are ordinary when the caller passes a stale or foreign id.
//! Consistency errors (`EventListAlreadyInUse`, `InconsistentUserKey`) signal
//! a protocol violation in the match-to-settle hand-off.  Validation errors
//! (`InvalidOrderSide`, `InvalidTokenPair`) are rejected before any state
//! mutation.

use vstd::prelude::*;

verus! {

#[derive(Clone, Copy, Debug, PartialEq, Eq, Structural)]
pub enum ErrorCode {
    InsufficientBalance,
    OrderHeapFull,
    OrderNotFound,
    EventListFull,
    InvalidTokenPair,
    InvalidOrderSide,
    EventListAlreadyInUse,
    EventListClosed,
    InvalidEventType,
    MaxLeavesReached,
    MaxMiddlesReached,
    TooLongKey,
    KeyNotFound,
    MaxTokensReached,
    OrderbookCapacityReached,
    InconsistentUserKey,
}

} // verus!

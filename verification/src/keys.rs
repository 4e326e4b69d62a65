//! Opaque 32-byte identifiers for tokens and accounts.

use vstd::prelude::*;

verus! {

/// An opaque 32-byte key identifying a tradable token or a participant
/// account, stored as two 128-bit halves so equality is structural.
#[derive(Clone, Copy, Debug, PartialEq, Eq, Structural, Hash)]
pub struct Pubkey {
    pub hi: u128,
    pub lo: u128,
}

impl Pubkey {
    /// The all-zero key, used to blank out unused slots.
    pub fn zero() -> (r: Pubkey)
        ensures
            r == (Pubkey { hi: 0, lo: 0 }),
    {
        Pubkey { hi: 0, lo: 0 }
    }

    pub fn new(hi: u128, lo: u128) -> (r: Pubkey)
        ensures
            r == (Pubkey { hi, lo }),
    {
        Pubkey { hi, lo }
    }
}

impl Default for Pubkey {
    fn default() -> (r: Self)
        ensures
            r == (Pubkey { hi: 0, lo: 0 }),
    {
        Pubkey { hi: 0, lo: 0 }
    }
}

} // verus!

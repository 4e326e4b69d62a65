//! Per-user bounded records: the set of registered token mints, the list of
//! resting order ids, and one token's balances.

use vstd::prelude::*;
use crate::{MAX_TOKEN_MINTS, USER_ORDERBOOK_CAP};
use crate::errors::ErrorCode;
use crate::keys::Pubkey;

verus! {

/// Available and locked balance of one user in one token.
#[derive(Clone, Copy, Debug, PartialEq, Eq, Structural)]
pub struct IndividualTokenLedgerAccount {
    pub available_balance: u64,
    pub locked_balance: u64,
    pub mint_account: Pubkey,
    pub user_token_account: Pubkey,
}

/// The token mints a user has registered, bounded by `MAX_TOKEN_MINTS`.
pub struct IndividualLedgerAccount {
    tokens: Vec<Pubkey>,
}

impl View for IndividualLedgerAccount {
    type V = Seq<Pubkey>;

    closed spec fn view(&self) -> Seq<Pubkey> {
        self.tokens@
    }
}

impl IndividualLedgerAccount {
    pub closed spec fn wf(&self) -> bool {
        self@.len() <= MAX_TOKEN_MINTS as int
    }

    pub fn new() -> (r: Self)
        ensures
            r.wf(),
            r@ == Seq::<Pubkey>::empty(),
    {
        IndividualLedgerAccount { tokens: Vec::new() }
    }

    /// Drop every registered token.
    pub fn init(&mut self)
        ensures
            final(self).wf(),
            final(self)@ == Seq::<Pubkey>::empty(),
    {
        self.tokens = Vec::new();
        proof {
            assert(self@ =~= Seq::<Pubkey>::empty());
        }
    }

    /// Register one more token mint; `MaxTokensReached` at capacity.
    pub fn add_token(&mut self, token: Pubkey) -> (r: Result<(), ErrorCode>)
        requires
            old(self).wf(),
        ensures
            final(self).wf(),
            match r {
                Ok(()) => old(self)@.len() < MAX_TOKEN_MINTS as int
                    && final(self)@ == old(self)@.push(token),
                Err(e) => *final(self) == *old(self)
                    && e == ErrorCode::MaxTokensReached
                    && old(self)@.len() == MAX_TOKEN_MINTS as int,
            },
    {
        if self.tokens.len() >= MAX_TOKEN_MINTS {
            return Err(ErrorCode::MaxTokensReached);
        }
        self.tokens.push(token);
        Ok(())
    }
}

/// The ids of one account's resting orders: no duplicates, bounded.
pub struct UserOrderbook {
    orders: Vec<u128>,
}

impl View for UserOrderbook {
    type V = Seq<u128>;

    closed spec fn view(&self) -> Seq<u128> {
        self.orders@
    }
}

impl UserOrderbook {
    pub closed spec fn wf(&self) -> bool {
        &&& self@.len() <= USER_ORDERBOOK_CAP as int
        &&& (forall|i: int, j: int| 0 <= i < j < self@.len() ==> self@[i] != self@[j])
    }

    pub fn new() -> (r: Self)
        ensures
            r.wf(),
            r@ == Seq::<u128>::empty(),
    {
        UserOrderbook { orders: Vec::new() }
    }

    /// Drop every recorded order id.
    pub fn init(&mut self)
        ensures
            final(self).wf(),
            final(self)@ == Seq::<u128>::empty(),
    {
        self.orders = Vec::new();
        proof {
            assert(self@ =~= Seq::<u128>::empty());
        }
    }

    /// Record a fresh order id; `OrderbookCapacityReached` at capacity.
    pub fn add_order(&mut self, order: u128) -> (r: Result<(), ErrorCode>)
        requires
            old(self).wf(),
            !old(self)@.contains(order),
        ensures
            final(self).wf(),
            match r {
                Ok(()) => old(self)@.len() < USER_ORDERBOOK_CAP as int
                    && final(self)@ == old(self)@.push(order),
                Err(e) => *final(self) == *old(self)
                    && e == ErrorCode::OrderbookCapacityReached
                    && old(self)@.len() == USER_ORDERBOOK_CAP as int,
            },
    {
        if self.orders.len() >= USER_ORDERBOOK_CAP {
            return Err(ErrorCode::OrderbookCapacityReached);
        }
        self.orders.push(order);
        proof {
            assert forall|i: int, j: int| 0 <= i < j < self@.len()
                implies self@[i] != self@[j] by {
                if j < self@.len() - 1 {
                    assert(old(self)@[i] != old(self)@[j]);
                } else {
                    assert(old(self)@.contains(old(self)@[i]) == false || true);
                    assert(self@[j] == order);
                    assert(old(self)@[i] == self@[i]);
                    if self@[i] == order {
                        assert(old(self)@.contains(order));
                    }
                }
            }
        }
        Ok(())
    }

    /// Remove a recorded order id, shifting later entries left;
    /// `OrderNotFound` when the id is not recorded, with nothing changed.
    pub fn remove_order(&mut self, order: u128) -> (r: Result<(), ErrorCode>)
        requires
            old(self).wf(),
        ensures
            final(self).wf(),
            match r {
                Ok(()) => {
                    &&& old(self)@.contains(order)
                    &&& exists|i: int| 0 <= i < old(self)@.len()
                        && old(self)@[i] == order
                        && final(self)@ == old(self)@.remove(i)
                    &&& !final(self)@.contains(order)
                },
                Err(e) => {
                    &&& *final(self) == *old(self)
                    &&& e == ErrorCode::OrderNotFound
                    &&& !old(self)@.contains(order)
                },
            },
    {
        let ghost s0 = *self;
        let mut i: usize = 0;
        while i < self.orders.len()
            invariant
                *self == s0,
                s0 == *old(self),
                s0.wf(),
                i <= self@.len(),
                forall|j: int| 0 <= j < i as int ==> self@[j] != order,
            decreases self@.len() - i as int,
        {
            if self.orders[i] == order {
                proof {
                    assert(s0@[i as int] == order);
                    assert(s0@.contains(s0@[i as int]));
                }
                self.orders.remove(i);
                proof {
                    assert(self@ == s0@.remove(i as int));
                    assert((i as int) < s0@.len());
                    assert(s0@[i as int] == order);
                    assert(exists|k: int| 0 <= k < s0@.len() && s0@[k] == order
                        && self@ == s0@.remove(k)) by {
                        assert(s0@[i as int] == order && self@ == s0@.remove(i as int));
                    }
                    assert forall|k: int| 0 <= k < self@.len()
                        implies self@[k] != order by {
                        if k < i as int {
                            assert(self@[k] == s0@[k]);
                        } else {
                            assert(self@[k] == s0@[k + 1]);
                        }
                    }
                    assert(!self@.contains(order));
                    assert forall|a: int, b: int| 0 <= a < b < self@.len()
                        implies self@[a] != self@[b] by {
                        let a0 = if a < i as int { a } else { a + 1 };
                        let b0 = if b < i as int { b } else { b + 1 };
                        assert(self@[a] == s0@[a0] && self@[b] == s0@[b0]);
                    }
                }
                return Ok(());
            }
            i = i + 1;
        }
        Err(ErrorCode::OrderNotFound)
    }

    /// Like `remove_order`, but a missing id is silently ignored.
    pub fn try_remove_order(&mut self, order: u128)
        requires
            old(self).wf(),
        ensures
            final(self).wf(),
            old(self)@.contains(order) ==> exists|i: int| 0 <= i < old(self)@.len()
                && old(self)@[i] == order
                && final(self)@ == old(self)@.remove(i),
            !old(self)@.contains(order) ==> *final(self) == *old(self),
            !final(self)@.contains(order),
    {
        let r = self.remove_order(order);
        match r {
            Ok(()) => {},
            Err(_) => {},
        }
    }
}

} // verus!

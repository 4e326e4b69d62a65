//! Bounded, single-owner outbox of pending settlement events.
//!
//! One matching call fills the outbox; a later drain step empties it.  The
//! `in_use` flag is the single point of cross-order consistency: while it is
//! set, no new order of the same owner may open a second settlement window.

use vstd::prelude::*;
use crate::MAX_EVENTS;
use crate::errors::ErrorCode;
use crate::keys::Pubkey;

verus! {

/// One pending settlement instruction.
#[derive(Clone, Copy, Debug, PartialEq, Eq, Structural)]
pub struct Event {
    pub oppo_user: Pubkey,
    pub buy_quantity: u64,
    pub sell_quantity: u64,
    pub rollback: bool,
    pub oppo_order_id: u64,
    pub filled: bool,
    pub oppo_filled: bool,
}

pub struct EventList {
    events: Vec<Event>,
    pub user: Pubkey,
    pub token_buy: Pubkey,
    pub token_sell: Pubkey,
    pub order_id: u64,
    pub in_use: bool,
}

impl View for EventList {
    type V = Seq<Event>;

    closed spec fn view(&self) -> Seq<Event> {
        self.events@
    }
}

impl EventList {
    pub open spec fn wf(&self) -> bool {
        self@.len() <= MAX_EVENTS as int
    }

    pub closed spec fn spec_in_use(&self) -> bool {
        self.in_use
    }

    pub closed spec fn spec_user(&self) -> Pubkey {
        self.user
    }

    pub closed spec fn spec_order_id(&self) -> u64 {
        self.order_id
    }

    pub closed spec fn spec_token_buy(&self) -> Pubkey {
        self.token_buy
    }

    pub closed spec fn spec_token_sell(&self) -> Pubkey {
        self.token_sell
    }

    /// A fresh, closed, empty outbox.
    pub fn new() -> (r: Self)
        ensures
            r.wf(),
            r@ == Seq::<Event>::empty(),
            !r.spec_in_use(),
    {
        EventList {
            events: Vec::new(),
            user: Pubkey { hi: 0, lo: 0 },
            token_buy: Pubkey { hi: 0, lo: 0 },
            token_sell: Pubkey { hi: 0, lo: 0 },
            order_id: 0,
            in_use: false,
        }
    }

    /// Reset to an owned, closed, empty outbox.
    pub fn init(&mut self, user: Pubkey, token_buy: Pubkey, token_sell: Pubkey, order_id: u64)
        ensures
            final(self).wf(),
            final(self)@ == Seq::<Event>::empty(),
            !final(self).spec_in_use(),
            final(self).spec_user() == user,
            final(self).spec_order_id() == order_id,
            final(self).spec_token_buy() == token_buy,
            final(self).spec_token_sell() == token_sell,
    {
        self.user = user;
        self.token_buy = token_buy;
        self.token_sell = token_sell;
        self.order_id = order_id;
        self.events = Vec::new();
        self.in_use = false;
        proof {
            assert(self@ =~= Seq::<Event>::empty());
        }
    }

    /// Drop all events and clear the session flag.
    pub fn close(&mut self)
        ensures
            final(self).wf(),
            final(self)@ == Seq::<Event>::empty(),
            !final(self).spec_in_use(),
            final(self).spec_user() == old(self).spec_user(),
            final(self).spec_order_id() == old(self).spec_order_id(),
            final(self).spec_token_buy() == old(self).spec_token_buy(),
            final(self).spec_token_sell() == old(self).spec_token_sell(),
    {
        self.events = Vec::new();
        self.in_use = false;
        proof {
            assert(self@ =~= Seq::<Event>::empty());
        }
    }

    /// The id of the order this session settles.
    pub fn get_order_id(&self) -> (r: u64)
        ensures
            r == self.spec_order_id(),
    {
        self.order_id
    }

    /// The owner of this outbox.
    pub fn get_user(&self) -> (r: Pubkey)
        ensures
            r == self.spec_user(),
    {
        self.user
    }

    pub fn is_closed(&self) -> (r: bool)
        ensures
            r == !self.spec_in_use(),
    {
        !self.in_use
    }

    /// Open a settlement window.  Fails with `EventListAlreadyInUse`, and
    /// changes nothing, when a prior session was not drained.
    pub fn open(&mut self, user: Pubkey, token_buy: Pubkey, token_sell: Pubkey, order_id: u64)
        -> (r: Result<(), ErrorCode>)
        requires
            old(self).wf(),
        ensures
            final(self).wf(),
            match r {
                Ok(()) => {
                    &&& !old(self).spec_in_use()
                    &&& final(self).spec_in_use()
                    &&& final(self)@ == Seq::<Event>::empty()
                    &&& final(self).spec_user() == user
                    &&& final(self).spec_order_id() == order_id
                    &&& final(self).spec_token_buy() == token_buy
                    &&& final(self).spec_token_sell() == token_sell
                },
                Err(e) => {
                    &&& *final(self) == *old(self)
                    &&& e == ErrorCode::EventListAlreadyInUse
                    &&& old(self).spec_in_use()
                },
            },
    {
        if self.in_use {
            return Err(ErrorCode::EventListAlreadyInUse);
        }
        self.user = user;
        self.token_buy = token_buy;
        self.token_sell = token_sell;
        self.order_id = order_id;
        self.events = Vec::new();
        self.in_use = true;
        proof {
            assert(self@ =~= Seq::<Event>::empty());
        }
        Ok(())
    }

    /// Append one settlement event.  Fails with `EventListFull`, and does
    /// not grow, exactly when the outbox is at capacity.
    pub fn add_event(
        &mut self,
        oppo_user: Pubkey,
        buy_quantity: u64,
        sell_quantity: u64,
        rollback: bool,
        oppo_order_id: u64,
        oppo_filled: bool,
        filled: bool,
    ) -> (r: Result<(), ErrorCode>)
        requires
            old(self).wf(),
        ensures
            final(self).wf(),
            final(self).spec_in_use() == old(self).spec_in_use(),
            final(self).spec_user() == old(self).spec_user(),
            final(self).spec_order_id() == old(self).spec_order_id(),
            final(self).spec_token_buy() == old(self).spec_token_buy(),
            final(self).spec_token_sell() == old(self).spec_token_sell(),
            match r {
                Ok(()) => {
                    &&& old(self)@.len() < MAX_EVENTS as int
                    &&& final(self)@ == old(self)@.push(Event {
                        oppo_user, buy_quantity, sell_quantity, rollback,
                        oppo_order_id, filled, oppo_filled,
                    })
                },
                Err(e) => {
                    &&& *final(self) == *old(self)
                    &&& e == ErrorCode::EventListFull
                    &&& old(self)@.len() == MAX_EVENTS as int
                },
            },
    {
        if self.events.len() >= MAX_EVENTS {
            return Err(ErrorCode::EventListFull);
        }
        self.events.push(Event {
            oppo_user, buy_quantity, sell_quantity, rollback,
            oppo_order_id, filled, oppo_filled,
        });
        Ok(())
    }

    pub fn length(&self) -> (r: u64)
        requires
            self.wf(),
        ensures
            r == self@.len(),
    {
        self.events.len() as u64
    }

    pub fn is_full(&self) -> (r: bool)
        requires
            self.wf(),
        ensures
            r == (self@.len() == MAX_EVENTS as int),
    {
        self.events.len() >= MAX_EVENTS
    }

    /// The counterparty and quantities of the event at `index`, if live.
    pub fn at(&self, index: usize) -> (r: Option<(Pubkey, u64, u64)>)
        requires
            self.wf(),
        ensures
            match r {
                Some(t) => index < self@.len()
                    && t == (self@[index as int].oppo_user,
                        self@[index as int].buy_quantity,
                        self@[index as int].sell_quantity),
                None => index >= self@.len(),
            },
    {
        if index >= self.events.len() {
            return None;
        }
        let e = &self.events[index];
        Some((e.oppo_user, e.buy_quantity, e.sell_quantity))
    }

    /// Remove and return the most recently added event.
    pub fn pop(&mut self) -> (r: Option<Event>)
        requires
            old(self).wf(),
        ensures
            final(self).wf(),
            final(self).spec_in_use() == old(self).spec_in_use(),
            final(self).spec_user() == old(self).spec_user(),
            final(self).spec_order_id() == old(self).spec_order_id(),
            final(self).spec_token_buy() == old(self).spec_token_buy(),
            final(self).spec_token_sell() == old(self).spec_token_sell(),
            match r {
                Some(e) => old(self)@.len() > 0
                    && e == old(self)@[old(self)@.len() - 1]
                    && final(self)@ == old(self)@.drop_last(),
                None => old(self)@.len() == 0 && *final(self) == *old(self),
            },
    {
        if self.events.len() == 0 {
            return None;
        }
        let e = self.events.pop();
        match e {
            Some(ev) => Some(ev),
            None => None,
        }
    }
}

} // verus!

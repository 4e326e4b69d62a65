//! The library surface around the matching core: sequence numbers, order
//! submission and cancellation, and the settlement hand-off that drains the
//! event outbox.

use vstd::prelude::*;
use crate::MAX_EVENTS;
use crate::errors::ErrorCode;
use crate::event_list::{Event, EventList};
use crate::keys::Pubkey;
use crate::ledger::UserOrderbook;
use crate::matching_engine::{MatchingEngine, OrderSuccess, OrderFailed};
use crate::order_heap::OrderHeapImpl;
use crate::order_node::{OrderNode, OrderRequest};

verus! {

/// Source of monotonic order ids.
pub struct DexManager {
    pub sequence_number: u64,
}

impl DexManager {
    pub fn new() -> (r: Self)
        ensures
            r.sequence_number == 0,
    {
        DexManager { sequence_number: 0 }
    }

    /// The next order id: one more than the last, restarting at 1 if the
    /// counter would wrap.
    pub fn next_sequence_number(&mut self) -> (r: u64)
        ensures
            final(self).sequence_number == r,
            r == (if old(self).sequence_number == u64::MAX {
                1u64
            } else {
                (old(self).sequence_number + 1) as u64
            }),
    {
        if self.sequence_number == u64::MAX {
            self.sequence_number = 1;
            return 1;
        }
        self.sequence_number = self.sequence_number + 1;
        self.sequence_number
    }
}

/// What one drained event asks the ledgers to do: give `sell_quantity` of
/// the owner's locked funds and `buy_quantity` of the counterparty's, or,
/// for a rollback, release the owner's locked `sell_quantity`.
#[derive(Clone, Copy, Debug, PartialEq, Eq, Structural)]
pub struct SettlementEffect {
    pub oppo_user: Pubkey,
    pub buy_quantity: u64,
    pub sell_quantity: u64,
    pub rollback: bool,
    pub oppo_order_id: u64,
    pub filled: bool,
    pub oppo_filled: bool,
}

/// Drain one event from the outbox.  A non-rollback event is released only
/// to the counterparty it names; a mismatch is a hard error that leaves the
/// outbox untouched.  When the last event leaves, the session closes.
pub fn drain_settlement(outbox: &mut EventList, counterparty: Pubkey)
    -> (r: Result<Option<SettlementEffect>, ErrorCode>)
    requires
        old(outbox).wf(),
    ensures
        final(outbox).wf(),
        match r {
            Ok(Some(eff)) => {
                &&& old(outbox).spec_in_use()
                &&& old(outbox)@.len() > 0
                &&& ({
                    let ev = old(outbox)@[old(outbox)@.len() - 1];
                    &&& eff == (SettlementEffect {
                        oppo_user: ev.oppo_user,
                        buy_quantity: ev.buy_quantity,
                        sell_quantity: ev.sell_quantity,
                        rollback: ev.rollback,
                        oppo_order_id: ev.oppo_order_id,
                        filled: ev.filled,
                        oppo_filled: ev.oppo_filled,
                    })
                    &&& (ev.rollback || ev.oppo_user == counterparty)
                })
                &&& (old(outbox)@.len() == 1 ==> !final(outbox).spec_in_use()
                    && final(outbox)@.len() == 0)
                &&& (old(outbox)@.len() > 1 ==> final(outbox)@
                    == old(outbox)@.drop_last() && final(outbox).spec_in_use())
            },
            Ok(None) => {
                &&& *final(outbox) == *old(outbox)
                &&& (!old(outbox).spec_in_use() || old(outbox)@.len() == 0)
            },
            Err(e) => {
                &&& old(outbox).spec_in_use()
                &&& final(outbox)@ == old(outbox)@
                &&& final(outbox).spec_in_use() == old(outbox).spec_in_use()
                &&& final(outbox).spec_user() == old(outbox).spec_user()
                &&& final(outbox).spec_order_id() == old(outbox).spec_order_id()
                &&& e == ErrorCode::InconsistentUserKey
                &&& old(outbox)@.len() > 0
                &&& !old(outbox)@[old(outbox)@.len() - 1].rollback
                &&& old(outbox)@[old(outbox)@.len() - 1].oppo_user != counterparty
            },
        },
{
    if outbox.is_closed() {
        return Ok(None);
    }
    let len = outbox.length();
    if len == 0 {
        return Ok(None);
    }
    let ev = match outbox.pop() {
        Some(e) => e,
        None => {
            proof {
                assert(false);
            }
            return Ok(None);
        },
    };
    if !ev.rollback && !(ev.oppo_user == counterparty) {
        // Put the state back exactly as it was and report the protocol
        // violation.
        proof {
            assert(outbox@.len() == old(outbox)@.len() - 1);
            assert(outbox@.len() < MAX_EVENTS as int);
        }
        match outbox.add_event(
            ev.oppo_user, ev.buy_quantity, ev.sell_quantity, ev.rollback,
            ev.oppo_order_id, ev.oppo_filled, ev.filled,
        ) {
            Ok(()) => {},
            Err(_) => {
                proof {
                    assert(false);
                }
            },
        }
        proof {
            assert(outbox@ =~= old(outbox)@);
        }
        return Err(ErrorCode::InconsistentUserKey);
    }
    if outbox.length() == 0 {
        outbox.close();
    }
    Ok(Some(SettlementEffect {
        oppo_user: ev.oppo_user,
        buy_quantity: ev.buy_quantity,
        sell_quantity: ev.sell_quantity,
        rollback: ev.rollback,
        oppo_order_id: ev.oppo_order_id,
        filled: ev.filled,
        oppo_filled: ev.oppo_filled,
    }))
}

/// The settlement event one matching entry induces for the order this
/// outbox settles, if any: a fill of the own side settles quantities
/// against the counterparty; a reported failure releases the owner's own
/// escrow still locked for the order's remaining quantities (a rollback
/// event).  Entries about other orders' sides and the opening acceptance
/// induce none.
pub open spec fn event_of_entry(
    entry: Result<OrderSuccess, OrderFailed>, my_id: u64,
) -> Option<Event> {
    match entry {
        Ok(OrderSuccess::Accepted { .. }) => None,
        Ok(OrderSuccess::Filled {
            order_id, oppo_user, oppo_order_id, sell_quantity, buy_quantity, oppo_filled, ..
        }) => if order_id == my_id {
            Some(Event {
                oppo_user, buy_quantity, sell_quantity, rollback: false,
                oppo_order_id, filled: true, oppo_filled,
            })
        } else {
            None
        },
        Ok(OrderSuccess::PartiallyFilled {
            order_id, oppo_user, oppo_order_id, sell_quantity, buy_quantity, oppo_filled, ..
        }) => if order_id == my_id {
            Some(Event {
                oppo_user, buy_quantity, sell_quantity, rollback: false,
                oppo_order_id, filled: false, oppo_filled,
            })
        } else {
            None
        },
        Err(OrderFailed::TooManyEvents { order_id, owner, sell_quantity, buy_quantity })
            => if order_id == my_id {
            Some(rollback_event(owner, buy_quantity, sell_quantity))
        } else {
            None
        },
        Err(OrderFailed::OrderHeapFull { order_id, owner, sell_quantity, buy_quantity })
            => if order_id == my_id {
            Some(rollback_event(owner, buy_quantity, sell_quantity))
        } else {
            None
        },
        Err(OrderFailed::NoMatch { order_id, owner, sell_quantity, buy_quantity })
            => if order_id == my_id {
            Some(rollback_event(owner, buy_quantity, sell_quantity))
        } else {
            None
        },
        Err(OrderFailed::OrderNotFound { .. }) => None,
    }
}

/// The event that releases the owner's escrow after a failure: the drain
/// step unlocks exactly `sell_quantity` of the owner's own funds.
pub open spec fn rollback_event(owner: Pubkey, buy_quantity: u64, sell_quantity: u64) -> Event {
    Event {
        oppo_user: owner, buy_quantity, sell_quantity, rollback: true,
        oppo_order_id: 0, filled: false, oppo_filled: false,
    }
}

/// The settlement events a whole result sequence induces, in order.
pub open spec fn events_of(
    entries: Seq<Result<OrderSuccess, OrderFailed>>, my_id: u64,
) -> Seq<Event>
    decreases entries.len(),
{
    if entries.len() == 0 {
        Seq::empty()
    } else {
        (match event_of_entry(entries[0], my_id) {
            Some(e) => seq![e],
            None => Seq::empty(),
        }) + events_of(entries.drop_first(), my_id)
    }
}

/// Appending one entry appends its event, if any.
proof fn lemma_events_of_snoc(
    entries: Seq<Result<OrderSuccess, OrderFailed>>,
    x: Result<OrderSuccess, OrderFailed>, my_id: u64,
)
    ensures
        events_of(entries.push(x), my_id) == events_of(entries, my_id)
            + (match event_of_entry(x, my_id) {
                Some(e) => seq![e],
                None => Seq::<Event>::empty(),
            }),
    decreases entries.len(),
{
    if entries.len() == 0 {
        assert(entries.push(x)[0] == x);
        assert(entries.push(x).drop_first() =~= Seq::<Result<OrderSuccess, OrderFailed>>::empty());
        assert(entries.push(x).drop_first() == entries);
        assert(events_of(entries.push(x), my_id)
            =~= events_of(entries, my_id)
                + (match event_of_entry(x, my_id) {
                    Some(e) => seq![e],
                    None => Seq::<Event>::empty(),
                }));
    } else {
        assert(entries.push(x)[0] == entries[0]);
        assert(entries.push(x).drop_first() =~= entries.drop_first().push(x));
        lemma_events_of_snoc(entries.drop_first(), x, my_id);
        assert(events_of(entries.push(x), my_id)
            =~= events_of(entries, my_id)
                + (match event_of_entry(x, my_id) {
                    Some(e) => seq![e],
                    None => Seq::<Event>::empty(),
                }));
    }
}

/// A result sequence induces at most one event per entry, and none for its
/// leading entry when that entry induces none.
proof fn lemma_events_of_len(
    entries: Seq<Result<OrderSuccess, OrderFailed>>, my_id: u64,
)
    ensures
        events_of(entries, my_id).len() <= entries.len(),
        entries.len() > 0 && event_of_entry(entries[0], my_id) is None
            ==> events_of(entries, my_id).len() <= entries.len() - 1,
    decreases entries.len(),
{
    if entries.len() > 0 {
        lemma_events_of_len(entries.drop_first(), my_id);
    }
}

/// A prefix induces no more events than the whole.
proof fn lemma_events_of_take_bound(
    entries: Seq<Result<OrderSuccess, OrderFailed>>, i: int, my_id: u64,
)
    requires
        0 <= i <= entries.len(),
    ensures
        events_of(entries.take(i), my_id).len() <= events_of(entries, my_id).len(),
    decreases entries.len() - i,
{
    if i == entries.len() {
        assert(entries.take(i) =~= entries);
    } else {
        assert(entries.take(i + 1) =~= entries.take(i).push(entries[i]));
        lemma_events_of_snoc(entries.take(i), entries[i], my_id);
        lemma_events_of_take_bound(entries, i + 1, my_id);
    }
}

/// The event one entry induces, executable form.
fn entry_event(
    entry: &Result<OrderSuccess, OrderFailed>, my_id: u64,
) -> (r: Option<Event>)
    ensures
        r == event_of_entry(*entry, my_id),
{
    match entry {
        Ok(OrderSuccess::Accepted { .. }) => None,
        Ok(OrderSuccess::Filled {
            order_id, oppo_user, oppo_order_id, sell_quantity, buy_quantity, oppo_filled, ..
        }) => {
            if *order_id == my_id {
                Some(Event {
                    oppo_user: *oppo_user,
                    buy_quantity: *buy_quantity,
                    sell_quantity: *sell_quantity,
                    rollback: false,
                    oppo_order_id: *oppo_order_id,
                    filled: true,
                    oppo_filled: *oppo_filled,
                })
            } else {
                None
            }
        },
        Ok(OrderSuccess::PartiallyFilled {
            order_id, oppo_user, oppo_order_id, sell_quantity, buy_quantity, oppo_filled, ..
        }) => {
            if *order_id == my_id {
                Some(Event {
                    oppo_user: *oppo_user,
                    buy_quantity: *buy_quantity,
                    sell_quantity: *sell_quantity,
                    rollback: false,
                    oppo_order_id: *oppo_order_id,
                    filled: false,
                    oppo_filled: *oppo_filled,
                })
            } else {
                None
            }
        },
        Err(OrderFailed::TooManyEvents { order_id, owner, sell_quantity, buy_quantity }) => {
            if *order_id == my_id {
                Some(Event {
                    oppo_user: *owner, buy_quantity: *buy_quantity,
                    sell_quantity: *sell_quantity, rollback: true,
                    oppo_order_id: 0, filled: false, oppo_filled: false,
                })
            } else {
                None
            }
        },
        Err(OrderFailed::OrderHeapFull { order_id, owner, sell_quantity, buy_quantity }) => {
            if *order_id == my_id {
                Some(Event {
                    oppo_user: *owner, buy_quantity: *buy_quantity,
                    sell_quantity: *sell_quantity, rollback: true,
                    oppo_order_id: 0, filled: false, oppo_filled: false,
                })
            } else {
                None
            }
        },
        Err(OrderFailed::NoMatch { order_id, owner, sell_quantity, buy_quantity }) => {
            if *order_id == my_id {
                Some(Event {
                    oppo_user: *owner, buy_quantity: *buy_quantity,
                    sell_quantity: *sell_quantity, rollback: true,
                    oppo_order_id: 0, filled: false, oppo_filled: false,
                })
            } else {
                None
            }
        },
        Err(OrderFailed::OrderNotFound { .. }) => None,
    }
}

/// Store the settlement events the matching entries induce for this
/// outbox's own order, in order.  When they would overflow the outbox,
/// nothing is stored and the overflow is reported.
pub fn convert_to_event_list(
    event_list: &mut EventList,
    result: &Vec<Result<OrderSuccess, OrderFailed>>,
) -> (r: Result<(), ErrorCode>)
    requires
        old(event_list).wf(),
    ensures
        final(event_list).wf(),
        final(event_list).spec_in_use() == old(event_list).spec_in_use(),
        final(event_list).spec_user() == old(event_list).spec_user(),
        final(event_list).spec_order_id() == old(event_list).spec_order_id(),
        final(event_list).spec_token_buy() == old(event_list).spec_token_buy(),
        final(event_list).spec_token_sell() == old(event_list).spec_token_sell(),
        ({
            let evs = events_of(result@, old(event_list).spec_order_id());
            match r {
                Ok(()) => old(event_list)@.len() + evs.len() <= MAX_EVENTS as int
                    && final(event_list)@ == old(event_list)@ + evs,
                Err(e) => {
                    &&& e == ErrorCode::EventListFull
                    &&& *final(event_list) == *old(event_list)
                    &&& old(event_list)@.len() + evs.len() > MAX_EVENTS as int
                },
            }
        }),
{
    let my_id = event_list.get_order_id();
    let n = result.len();
    // First pass: how many events the entries induce.
    let mut cnt: usize = 0;
    let mut i: usize = 0;
    while i < n
        invariant
            *event_list == *old(event_list),
            n == result@.len(),
            i <= n,
            cnt <= i,
            my_id == old(event_list).spec_order_id(),
            cnt as int == events_of(result@.take(i as int), my_id).len(),
        decreases n - i,
    {
        let got = entry_event(&result[i], my_id);
        proof {
            assert(result@.take(i as int + 1) =~= result@.take(i as int).push(result@[i as int]));
            lemma_events_of_snoc(result@.take(i as int), result@[i as int], my_id);
        }
        if got.is_some() {
            cnt = cnt + 1;
        }
        i = i + 1;
    }
    proof {
        assert(result@.take(n as int) =~= result@);
    }
    let used = event_list.length() as usize;
    if cnt > MAX_EVENTS - used {
        return Err(ErrorCode::EventListFull);
    }
    // Second pass: append them all; they are known to fit.
    let mut i: usize = 0;
    while i < n
        invariant
            event_list.wf(),
            event_list.spec_in_use() == old(event_list).spec_in_use(),
            event_list.spec_user() == old(event_list).spec_user(),
            event_list.spec_order_id() == old(event_list).spec_order_id(),
            event_list.spec_token_buy() == old(event_list).spec_token_buy(),
            event_list.spec_token_sell() == old(event_list).spec_token_sell(),
            n == result@.len(),
            i <= n,
            my_id == old(event_list).spec_order_id(),
            cnt as int == events_of(result@, my_id).len(),
            old(event_list)@.len() + cnt as int <= MAX_EVENTS as int,
            event_list@ == old(event_list)@ + events_of(result@.take(i as int), my_id),
        decreases n - i,
    {
        let got = entry_event(&result[i], my_id);
        proof {
            assert(result@.take(i as int + 1) =~= result@.take(i as int).push(result@[i as int]));
            lemma_events_of_snoc(result@.take(i as int), result@[i as int], my_id);
            lemma_events_of_take_bound(result@, i as int + 1, my_id);
        }
        match got {
            Some(e) => {
                match event_list.add_event(
                    e.oppo_user, e.buy_quantity, e.sell_quantity, e.rollback,
                    e.oppo_order_id, e.oppo_filled, e.filled,
                ) {
                    Ok(()) => {
                        proof {
                            assert(event_list@ =~= old(event_list)@
                                + events_of(result@.take(i as int + 1), my_id));
                        }
                    },
                    Err(_) => {
                        proof {
                            assert(false);
                        }
                        return Err(ErrorCode::EventListFull);
                    },
                }
            },
            None => {
                proof {
                    assert(event_list@ =~= old(event_list)@
                        + events_of(result@.take(i as int + 1), my_id));
                }
            },
        }
        i = i + 1;
    }
    proof {
        assert(result@.take(n as int) =~= result@);
    }
    Ok(())
}

/// Submit one order against a pair's two heaps: open the owner's settlement
/// window, match, store the events it owes, and close the window again if
/// the call produced nothing to settle.  The call is refused, with nothing
/// changed, exactly when the owner's previous settlement window is still
/// open.
pub fn submit_order(
    buy_queue: &mut OrderHeapImpl,
    sell_queue: &mut OrderHeapImpl,
    user_orderbook: &mut UserOrderbook,
    event_list: &mut EventList,
    order: OrderRequest,
) -> (r: Result<Vec<Result<OrderSuccess, OrderFailed>>, ErrorCode>)
    requires
        old(buy_queue).wf(),
        old(sell_queue).wf(),
        old(user_orderbook).wf(),
        old(event_list).wf(),
        !old(buy_queue).contains_id(order.id),
        !old(user_orderbook)@.contains(order.id as u128),
    ensures
        final(buy_queue).wf(),
        final(sell_queue).wf(),
        final(user_orderbook).wf(),
        final(event_list).wf(),
        r is Err <==> old(event_list).spec_in_use(),
        match r {
            Ok(result) => {
                &&& result@.len() >= 1
                &&& result@[0] == Ok::<OrderSuccess, OrderFailed>(OrderSuccess::Accepted {
                    order_id: order.id,
                    order_type: order.order_type,
                })
                &&& result@.len() <= MAX_EVENTS as int
                &&& crate::matching_engine::process_outcome(
                    *old(buy_queue), *old(sell_queue), old(user_orderbook)@, order,
                    *final(buy_queue), *final(sell_queue), final(user_orderbook)@, result@,
                )
                &&& final(event_list)@ == events_of(result@, order.id)
                &&& final(event_list).spec_in_use() == (final(event_list)@.len() > 0)
                &&& final(event_list).spec_user() == order.owner
                &&& final(event_list).spec_order_id() == order.id
                &&& final(event_list).spec_token_buy() == order.buy_token
                &&& final(event_list).spec_token_sell() == order.sell_token
            },
            Err(e) => {
                &&& e == ErrorCode::EventListAlreadyInUse
                &&& *final(event_list) == *old(event_list)
                &&& *final(buy_queue) == *old(buy_queue)
                &&& *final(sell_queue) == *old(sell_queue)
                &&& *final(user_orderbook) == *old(user_orderbook)
            },
        },
{
    match event_list.open(order.owner, order.buy_token, order.sell_token, order.id) {
        Ok(()) => {},
        Err(e) => {
            return Err(e);
        },
    }
    let engine = MatchingEngine::new(order.buy_token, order.sell_token);
    let result = engine.process_order(buy_queue, sell_queue, user_orderbook, order);
    proof {
        // The acceptance entry owes no event, so the events fit the outbox.
        lemma_events_of_len(result@, order.id);
    }
    match convert_to_event_list(event_list, &result) {
        Ok(()) => {},
        Err(_) => {
            // The acceptance entry owes no event, so at most MAX_EVENTS
            // events enter the freshly opened outbox: overflow cannot occur.
            proof {
                assert(false);
            }
            return vstd::pervasive::unreached();
        },
    }
    proof {
        assert(event_list@ =~= events_of(result@, order.id));
    }
    if event_list.length() == 0 {
        event_list.close();
    }
    Ok(result)
}

/// Cancel a resting order: take it off the book and out of the owner's
/// orderbook in one step, returning the removed record.
pub fn cancel_order(
    queue: &mut OrderHeapImpl,
    user_orderbook: &mut UserOrderbook,
    order_id: u64,
) -> (r: Result<OrderNode, ErrorCode>)
    requires
        old(queue).wf(),
        old(user_orderbook).wf(),
    ensures
        final(queue).wf(),
        final(user_orderbook).wf(),
        match r {
            Ok(rec) => {
                &&& old(queue).contains_id(order_id)
                &&& rec.id == order_id
                &&& final(queue)@.to_multiset() == old(queue)@.to_multiset().remove(rec)
                &&& !final(queue).contains_id(order_id)
                &&& !final(user_orderbook)@.contains(order_id as u128)
                &&& (old(user_orderbook)@.contains(order_id as u128)
                    ==> exists|i: int| 0 <= i < old(user_orderbook)@.len()
                        && old(user_orderbook)@[i] == order_id as u128
                        && final(user_orderbook)@ == old(user_orderbook)@.remove(i))
                &&& (!old(user_orderbook)@.contains(order_id as u128)
                    ==> *final(user_orderbook) == *old(user_orderbook))
            },
            Err(e) => {
                &&& *final(queue) == *old(queue)
                &&& *final(user_orderbook) == *old(user_orderbook)
                &&& e == ErrorCode::OrderNotFound
                &&& !old(queue).contains_id(order_id)
            },
        },
{
    let rec = match queue.remove_order(order_id) {
        Ok(rec) => rec,
        Err(e) => {
            return Err(e);
        },
    };
    user_orderbook.try_remove_order(order_id as u128);
    Ok(rec)
}

} // verus!

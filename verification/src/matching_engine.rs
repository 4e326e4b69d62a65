//! Price-time-priority matching of an incoming order against the opposite
//! book, as an iterative loop with an explicit event budget.
//!
//! Each match step emits one entry per side and touches the books through
//! the heap's contracts only.  The budget check runs before each step, so a
//! call never produces more than `MAX_EVENTS` entries, the opening
//! acceptance included; the `limit_drain` and `market_drain` functions
//! state the whole loop as a function of the entry state.

use vstd::prelude::*;
use crate::{MAX_EVENTS, ORDER_HEAP_CAPACITY, USER_ORDERBOOK_CAP};
use crate::keys::Pubkey;
use crate::ledger::UserOrderbook;
use crate::order_node::{OrderNode, OrderRequest, OrderType, OrderSide, crosses, crosses_exec};
use crate::order_heap::{OrderHeapImpl, reduced_order, book_best};
use vstd::multiset::Multiset;

verus! {

/// A successful step of order processing.
#[derive(Clone, Copy, Debug, PartialEq, Eq, Structural)]
pub enum OrderSuccess {
    /// The request was taken up.
    Accepted { order_id: u64, order_type: OrderType },
    /// The side named by `order_id` was filled completely in this step.
    Filled {
        order_id: u64,
        owner: Pubkey,
        oppo_user: Pubkey,
        oppo_order_id: u64,
        order_type: OrderType,
        sell_quantity: u64,
        buy_quantity: u64,
        oppo_filled: bool,
    },
    /// The side named by `order_id` traded but keeps a remainder.
    PartiallyFilled {
        order_id: u64,
        owner: Pubkey,
        oppo_user: Pubkey,
        oppo_order_id: u64,
        order_type: OrderType,
        sell_quantity: u64,
        buy_quantity: u64,
        oppo_filled: bool,
    },
}

/// A failed step of order processing.  Capacity and no-match failures
/// carry the failing order's owner and remaining quantities, so the
/// settlement step can release exactly the escrow still locked for it.
#[derive(Clone, Copy, Debug, PartialEq, Eq, Structural)]
pub enum OrderFailed {
    TooManyEvents { order_id: u64, owner: Pubkey, sell_quantity: u64, buy_quantity: u64 },
    OrderHeapFull { order_id: u64, owner: Pubkey, sell_quantity: u64, buy_quantity: u64 },
    NoMatch { order_id: u64, owner: Pubkey, sell_quantity: u64, buy_quantity: u64 },
    OrderNotFound { order_id: u64 },
}

/// The budget failure entry for an order in its current state.
pub open spec fn too_many_events_of(o: OrderNode) -> OrderFailed {
    OrderFailed::TooManyEvents {
        order_id: o.id, owner: o.owner,
        sell_quantity: o.sell_quantity, buy_quantity: o.buy_quantity,
    }
}

/// The capacity failure entry for an order that could not rest.
pub open spec fn heap_full_of(o: OrderNode) -> OrderFailed {
    OrderFailed::OrderHeapFull {
        order_id: o.id, owner: o.owner,
        sell_quantity: o.sell_quantity, buy_quantity: o.buy_quantity,
    }
}

/// The no-match failure entry for a market order's dropped remainder.
pub open spec fn no_match_of(o: OrderNode) -> OrderFailed {
    OrderFailed::NoMatch {
        order_id: o.id, owner: o.owner,
        sell_quantity: o.sell_quantity, buy_quantity: o.buy_quantity,
    }
}

/// The exact quantity credited for a partial fill: `qty` of the taker's
/// give-side, priced at the resting order's ratio, rounded down.
pub open spec fn fill_amount(qty: u64, num: u64, den: u64) -> int {
    qty as int * num as int / den as int
}

/// `qty * num / den`, exact in 128-bit arithmetic.  With `qty <= den` the
/// result never exceeds `num`, so a partial fill cannot overdraw the
/// resting order.
pub fn mul_div(qty: u64, num: u64, den: u64) -> (r: u64)
    requires
        den > 0,
        qty <= den,
    ensures
        r as int == fill_amount(qty, num, den),
        r <= num,
{
    proof {
        assert(qty as int * num as int <= den as int * num as int
            && qty as int * num as int >= 0
            && qty as int * num as int / den as int <= num as int) by (nonlinear_arith)
            requires
                qty <= den,
                den > 0,
        {
        }
        assert(qty as int * num as int <= u128::MAX as int) by (nonlinear_arith)
            requires
                qty <= u64::MAX,
                num <= u64::MAX,
        {
        }
    }
    (((qty as u128) * (num as u128)) / (den as u128)) as u64
}


/// One step consumes the taker entirely when its anchored quantity does not
/// exceed the resting order's counter-quantity.
pub open spec fn step_completed(taker: OrderNode, best: OrderNode, is_sell: bool) -> bool {
    if is_sell {
        taker.sell_quantity <= best.buy_quantity
    } else {
        taker.buy_quantity <= best.sell_quantity
    }
}

/// The two entries one sell-anchored match step records: each carries
/// exactly the quantities moved between the two orders in its case.
pub open spec fn step_entries_sell(taker: OrderNode, best: OrderNode, order_type: OrderType)
    -> Seq<Result<OrderSuccess, OrderFailed>>
{
    if taker.sell_quantity < best.buy_quantity {
        let fill = fill_amount(taker.sell_quantity, best.sell_quantity, best.buy_quantity) as u64;
        seq![
            Ok(OrderSuccess::Filled {
                order_id: taker.id, owner: taker.owner, oppo_user: best.owner,
                oppo_order_id: best.id, order_type,
                sell_quantity: taker.sell_quantity, buy_quantity: fill, oppo_filled: false,
            }),
            Ok(OrderSuccess::PartiallyFilled {
                order_id: best.id, owner: best.owner, oppo_user: taker.owner,
                oppo_order_id: taker.id, order_type: OrderType::Limit,
                sell_quantity: fill, buy_quantity: taker.sell_quantity, oppo_filled: true,
            }),
        ]
    } else if taker.sell_quantity > best.buy_quantity {
        seq![
            Ok(OrderSuccess::Filled {
                order_id: best.id, owner: best.owner, oppo_user: taker.owner,
                oppo_order_id: taker.id, order_type: OrderType::Limit,
                sell_quantity: best.sell_quantity, buy_quantity: best.buy_quantity,
                oppo_filled: false,
            }),
            Ok(OrderSuccess::PartiallyFilled {
                order_id: taker.id, owner: taker.owner, oppo_user: best.owner,
                oppo_order_id: best.id, order_type,
                sell_quantity: best.buy_quantity, buy_quantity: best.sell_quantity,
                oppo_filled: true,
            }),
        ]
    } else {
        seq![
            Ok(OrderSuccess::Filled {
                order_id: taker.id, owner: taker.owner, oppo_user: best.owner,
                oppo_order_id: best.id, order_type,
                sell_quantity: best.buy_quantity, buy_quantity: best.sell_quantity,
                oppo_filled: true,
            }),
            Ok(OrderSuccess::Filled {
                order_id: best.id, owner: best.owner, oppo_user: taker.owner,
                oppo_order_id: taker.id, order_type: OrderType::Limit,
                sell_quantity: best.sell_quantity, buy_quantity: best.buy_quantity,
                oppo_filled: true,
            }),
        ]
    }
}

/// The two entries one buy-anchored match step records, the mirror of
/// `step_entries_sell`: the taker gives the resting order's buy-side units
/// and receives its sell-side units.
pub open spec fn step_entries_buy(taker: OrderNode, best: OrderNode, order_type: OrderType)
    -> Seq<Result<OrderSuccess, OrderFailed>>
{
    if taker.buy_quantity < best.sell_quantity {
        let fill = fill_amount(taker.buy_quantity, best.buy_quantity, best.sell_quantity) as u64;
        seq![
            Ok(OrderSuccess::Filled {
                order_id: taker.id, owner: taker.owner, oppo_user: best.owner,
                oppo_order_id: best.id, order_type,
                sell_quantity: fill, buy_quantity: taker.buy_quantity, oppo_filled: false,
            }),
            Ok(OrderSuccess::PartiallyFilled {
                order_id: best.id, owner: best.owner, oppo_user: taker.owner,
                oppo_order_id: taker.id, order_type: OrderType::Limit,
                sell_quantity: taker.buy_quantity, buy_quantity: fill, oppo_filled: true,
            }),
        ]
    } else if taker.buy_quantity > best.sell_quantity {
        seq![
            Ok(OrderSuccess::Filled {
                order_id: best.id, owner: best.owner, oppo_user: taker.owner,
                oppo_order_id: taker.id, order_type: OrderType::Limit,
                sell_quantity: best.sell_quantity, buy_quantity: best.buy_quantity,
                oppo_filled: false,
            }),
            Ok(OrderSuccess::PartiallyFilled {
                order_id: taker.id, owner: taker.owner, oppo_user: best.owner,
                oppo_order_id: best.id, order_type,
                sell_quantity: best.buy_quantity, buy_quantity: best.sell_quantity,
                oppo_filled: true,
            }),
        ]
    } else {
        seq![
            Ok(OrderSuccess::Filled {
                order_id: taker.id, owner: taker.owner, oppo_user: best.owner,
                oppo_order_id: best.id, order_type,
                sell_quantity: best.buy_quantity, buy_quantity: best.sell_quantity,
                oppo_filled: true,
            }),
            Ok(OrderSuccess::Filled {
                order_id: best.id, owner: best.owner, oppo_user: taker.owner,
                oppo_order_id: taker.id, order_type: OrderType::Limit,
                sell_quantity: best.sell_quantity, buy_quantity: best.buy_quantity,
                oppo_filled: true,
            }),
        ]
    }
}

/// The entries of one match step, by the taker's side.
pub open spec fn step_entries(taker: OrderNode, best: OrderNode, order_type: OrderType, is_sell: bool)
    -> Seq<Result<OrderSuccess, OrderFailed>>
{
    if is_sell {
        step_entries_sell(taker, best, order_type)
    } else {
        step_entries_buy(taker, best, order_type)
    }
}

/// The opposite book after one match step: the resting order leaves, or, on
/// a partial fill, stays with the moved quantities subtracted.
pub open spec fn step_book_after(
    book: vstd::multiset::Multiset<OrderNode>, taker: OrderNode, best: OrderNode, is_sell: bool,
) -> vstd::multiset::Multiset<OrderNode> {
    if is_sell {
        if taker.sell_quantity < best.buy_quantity {
            book.remove(best).insert(reduced_order(
                best,
                taker.sell_quantity,
                fill_amount(taker.sell_quantity, best.sell_quantity, best.buy_quantity) as u64,
            ))
        } else {
            book.remove(best)
        }
    } else {
        if taker.buy_quantity < best.sell_quantity {
            book.remove(best).insert(reduced_order(
                best,
                fill_amount(taker.buy_quantity, best.buy_quantity, best.sell_quantity) as u64,
                taker.buy_quantity,
            ))
        } else {
            book.remove(best)
        }
    }
}

/// The taker after a step that did not consume it: the resting order's
/// amounts subtracted, the cross decrement saturating at zero.
pub open spec fn taker_after(
    taker: OrderNode, best: OrderNode, order_type: OrderType, is_sell: bool,
) -> OrderNode {
    if is_sell {
        OrderNode {
            sell_quantity: (taker.sell_quantity - best.buy_quantity) as u64,
            buy_quantity: if order_type == OrderType::Limit {
                if taker.buy_quantity >= best.sell_quantity {
                    (taker.buy_quantity - best.sell_quantity) as u64
                } else {
                    0u64
                }
            } else {
                taker.buy_quantity
            },
            ..taker
        }
    } else {
        OrderNode {
            buy_quantity: (taker.buy_quantity - best.sell_quantity) as u64,
            sell_quantity: if taker.sell_quantity >= best.buy_quantity {
                (taker.sell_quantity - best.buy_quantity) as u64
            } else {
                0u64
            },
            ..taker
        }
    }
}

/// A resting attempt succeeded: the order entered its own-side book and the
/// owner's orderbook, and no entry was recorded.
pub open spec fn rest_succeeded(
    buy0: Seq<OrderNode>, uob0: Seq<u128>, r0: Seq<Result<OrderSuccess, OrderFailed>>,
    taker: OrderNode,
    buy1: Seq<OrderNode>, uob1: Seq<u128>, r1: Seq<Result<OrderSuccess, OrderFailed>>,
) -> bool {
    &&& r1 == r0
    &&& buy1.to_multiset() == buy0.to_multiset().insert(taker)
    &&& buy1.len() == buy0.len() + 1
    &&& uob1 == uob0.push(taker.id as u128)
}

/// A resting attempt hit a capacity limit: exactly one heap-full entry was
/// recorded and neither the book nor the owner's orderbook changed.
pub open spec fn rest_failed(
    buy0: Seq<OrderNode>, uob0: Seq<u128>, r0: Seq<Result<OrderSuccess, OrderFailed>>,
    taker: OrderNode,
    buy1: Seq<OrderNode>, uob1: Seq<u128>, r1: Seq<Result<OrderSuccess, OrderFailed>>,
) -> bool {
    &&& r1 == r0.push(Err(heap_full_of(taker)))
    &&& buy1 == buy0
    &&& uob1 == uob0
}

/// The outcome of resting an order: it rested, or one capacity failure was
/// recorded with nothing changed.
pub open spec fn rested(
    buy0: Seq<OrderNode>, uob0: Seq<u128>, r0: Seq<Result<OrderSuccess, OrderFailed>>,
    taker: OrderNode,
    buy1: Seq<OrderNode>, uob1: Seq<u128>, r1: Seq<Result<OrderSuccess, OrderFailed>>,
) -> bool {
    ||| rest_succeeded(buy0, uob0, r0, taker, buy1, uob1, r1)
    ||| rest_failed(buy0, uob0, r0, taker, buy1, uob1, r1)
}


/// The outcome of processing one order, pinned from the entry state: what
/// the result sequence holds and how the two books and the owner's
/// orderbook change, for every book shape up to depth one and for the first
/// step of deeper books.
pub open spec fn process_outcome(
    buy0: OrderHeapImpl, sell0: OrderHeapImpl, uob0: Seq<u128>,
    order: OrderRequest,
    buy1: OrderHeapImpl, sell1: OrderHeapImpl, uob1: Seq<u128>,
    result: Seq<Result<OrderSuccess, OrderFailed>>,
) -> bool {
    let acc = Ok::<OrderSuccess, OrderFailed>(OrderSuccess::Accepted {
        order_id: order.id,
        order_type: order.order_type,
    });
    let node = order.spec_order_node();
    let is_sell = order.order_side == OrderSide::Sell;
    let rests = order.order_type == OrderType::Limit && (sell0@.len() == 0
        || !crosses(node, sell0@[0]));
    // A limit order against an empty or non-crossing book rests: the result
    // is the bare acceptance, the order enters its own book and the owner's
    // orderbook (or one heap-full entry reports the capacity limit).
    &&& (rests ==> {
        &&& sell1 == sell0
        &&& rested(buy0@, uob0, seq![acc], node, buy1@, uob1, result)
        &&& (uob0.len() < USER_ORDERBOOK_CAP as int
            && buy0@.len() < ORDER_HEAP_CAPACITY as int
            && buy0.index_fits(order.id)
            ==> rest_succeeded(buy0@, uob0, seq![acc], node, buy1@, uob1, result))
    })
    // A crossing book whose best consumes the order: exactly the acceptance
    // plus one match step.
    &&& (order.order_type == OrderType::Limit && sell0@.len() > 0
        && crosses(node, sell0@[0])
        && step_completed(node, sell0@[0], is_sell) ==> {
        &&& result == seq![acc] + step_entries(node, sell0@[0], OrderType::Limit, is_sell)
        &&& sell1@.to_multiset() == step_book_after(
            sell0@.to_multiset(), node, sell0@[0], is_sell,
        )
        &&& buy1 == buy0
        &&& uob1 == uob0
    })
    // A crossing one-deep book that does not consume the order: the step
    // empties the book and the remainder rests.
    &&& (order.order_type == OrderType::Limit && sell0@.len() == 1
        && crosses(node, sell0@[0])
        && !step_completed(node, sell0@[0], is_sell) ==> {
        &&& sell1@.len() == 0
        &&& rested(
            buy0@, uob0,
            seq![acc] + step_entries(node, sell0@[0], OrderType::Limit, is_sell),
            taker_after(node, sell0@[0], OrderType::Limit, is_sell),
            buy1@, uob1, result,
        )
        &&& (uob0.len() < USER_ORDERBOOK_CAP as int
            && buy0@.len() < ORDER_HEAP_CAPACITY as int
            && buy0.index_fits(order.id)
            ==> rest_succeeded(
                buy0@, uob0,
                seq![acc] + step_entries(node, sell0@[0], OrderType::Limit, is_sell),
                taker_after(node, sell0@[0], OrderType::Limit, is_sell),
                buy1@, uob1, result,
            ))
    })
    // A market order against an empty book: one no-match entry, nothing
    // rests anywhere.
    &&& (order.order_type == OrderType::Market && sell0@.len() == 0 ==> {
        &&& result == seq![acc, Err::<OrderSuccess, OrderFailed>(no_match_of(node))]
        &&& sell1 == sell0
    })
    // A market order consumed by the best: exactly one step.
    &&& (order.order_type == OrderType::Market && sell0@.len() > 0
        && step_completed(node, sell0@[0], is_sell) ==> {
        &&& result == seq![acc] + step_entries(node, sell0@[0], OrderType::Market, is_sell)
        &&& sell1@.to_multiset() == step_book_after(
            sell0@.to_multiset(), node, sell0@[0], is_sell,
        )
    })
    // A market order that exhausts a one-deep book: the step plus one
    // no-match entry for the dropped remainder.
    &&& (order.order_type == OrderType::Market && sell0@.len() == 1
        && !step_completed(node, sell0@[0], is_sell) ==> {
        &&& sell1@.len() == 0
        &&& result == seq![acc]
            + step_entries(node, sell0@[0], OrderType::Market, is_sell)
            + seq![Err::<OrderSuccess, OrderFailed>(no_match_of(
                taker_after(node, sell0@[0], OrderType::Market, is_sell)))]
    })
    // Books of any depth: the whole matching loop, entries and final book,
    // as a function of the entry state (the acceptance entry is emitted
    // first, so the loop starts with one entry recorded).
    &&& (order.order_type == OrderType::Limit ==> {
        let outcome = limit_drain(sell0@.to_multiset(), node, 1, is_sell);
        &&& sell1@.to_multiset() == outcome.book
        &&& (!outcome.rests ==> result == seq![acc] + outcome.entries
            && buy1 == buy0 && uob1 == uob0)
        &&& (outcome.rests ==> {
            &&& rested(buy0@, uob0, seq![acc] + outcome.entries, outcome.taker,
                buy1@, uob1, result)
            &&& (uob0.len() < USER_ORDERBOOK_CAP as int
                && buy0@.len() < ORDER_HEAP_CAPACITY as int
                && buy0.index_fits(order.id)
                ==> rest_succeeded(buy0@, uob0, seq![acc] + outcome.entries,
                    outcome.taker, buy1@, uob1, result))
        })
    })
    &&& (order.order_type == OrderType::Market ==> {
        let outcome = market_drain(sell0@.to_multiset(), node, 1, is_sell);
        &&& sell1@.to_multiset() == outcome.book
        &&& result == seq![acc] + outcome.entries
    })
}


/// What a matching loop leaves behind, computed from the entry state: the
/// entries it records, the opposite book it leaves, the taker's remaining
/// state, and whether the remainder goes on to rest.
pub struct MatchDrain {
    pub entries: Seq<Result<OrderSuccess, OrderFailed>>,
    pub book: Multiset<OrderNode>,
    pub taker: OrderNode,
    pub rests: bool,
}

/// The limit-order loop, as a function of the book's multiset: while the
/// budget holds and the best resting order crosses, take one step; an empty
/// or non-crossing book leaves the remainder to rest.
pub open spec fn limit_drain(
    book: Multiset<OrderNode>, taker: OrderNode, emitted: int, is_sell: bool,
) -> MatchDrain
    decreases book.len(),
{
    if book.len() == 0 {
        MatchDrain { entries: Seq::empty(), book, taker, rests: true }
    } else if emitted + 2 > MAX_EVENTS as int {
        MatchDrain {
            entries: seq![Err(too_many_events_of(taker))],
            book, taker, rests: false,
        }
    } else {
        let b = book_best(book);
        if !crosses(taker, b) {
            MatchDrain { entries: Seq::empty(), book, taker, rests: true }
        } else if step_completed(taker, b, is_sell) {
            MatchDrain {
                entries: step_entries(taker, b, OrderType::Limit, is_sell),
                book: step_book_after(book, taker, b, is_sell),
                taker, rests: false,
            }
        } else if step_book_after(book, taker, b, is_sell).len() < book.len() {
            let rec = limit_drain(
                step_book_after(book, taker, b, is_sell),
                taker_after(taker, b, OrderType::Limit, is_sell),
                emitted + 2, is_sell,
            );
            MatchDrain {
                entries: step_entries(taker, b, OrderType::Limit, is_sell) + rec.entries,
                book: rec.book,
                taker: rec.taker,
                rests: rec.rests,
            }
        } else {
            // A step on a real book always shrinks it; this arm only keeps
            // the recursion measured.
            MatchDrain { entries: Seq::empty(), book, taker, rests: false }
        }
    }
}

/// The market-order loop: the budget is checked before anything else, an
/// exhausted book reports the remainder unmatched, and nothing ever rests.
pub open spec fn market_drain(
    book: Multiset<OrderNode>, taker: OrderNode, emitted: int, is_sell: bool,
) -> MatchDrain
    decreases book.len(),
{
    if emitted + 2 > MAX_EVENTS as int {
        MatchDrain {
            entries: seq![Err(too_many_events_of(taker))],
            book, taker, rests: false,
        }
    } else if book.len() == 0 {
        MatchDrain {
            entries: seq![Err(no_match_of(taker))],
            book, taker, rests: false,
        }
    } else {
        let b = book_best(book);
        if step_completed(taker, b, is_sell) {
            MatchDrain {
                entries: step_entries(taker, b, OrderType::Market, is_sell),
                book: step_book_after(book, taker, b, is_sell),
                taker, rests: false,
            }
        } else if step_book_after(book, taker, b, is_sell).len() < book.len() {
            let rec = market_drain(
                step_book_after(book, taker, b, is_sell),
                taker_after(taker, b, OrderType::Market, is_sell),
                emitted + 2, is_sell,
            );
            MatchDrain {
                entries: step_entries(taker, b, OrderType::Market, is_sell) + rec.entries,
                book: rec.book,
                taker: rec.taker,
                rests: rec.rests,
            }
        } else {
            MatchDrain { entries: Seq::empty(), book, taker, rests: false }
        }
    }
}

/// Both drains keep the taker's identity: only quantities shrink.
proof fn lemma_drain_keeps_id(
    book: Multiset<OrderNode>, taker: OrderNode, emitted: int, is_sell: bool,
)
    ensures
        limit_drain(book, taker, emitted, is_sell).taker.id == taker.id,
        limit_drain(book, taker, emitted, is_sell).taker.owner == taker.owner,
        market_drain(book, taker, emitted, is_sell).taker.id == taker.id,
        market_drain(book, taker, emitted, is_sell).taker.owner == taker.owner,
    decreases book.len(),
{
    if book.len() > 0 && emitted + 2 <= MAX_EVENTS as int {
        let b = book_best(book);
        if step_book_after(book, taker, b, is_sell).len() < book.len() {
            lemma_drain_keeps_id(
                step_book_after(book, taker, b, is_sell),
                taker_after(taker, b, OrderType::Limit, is_sell),
                emitted + 2, is_sell,
            );
            lemma_drain_keeps_id(
                step_book_after(book, taker, b, is_sell),
                taker_after(taker, b, OrderType::Market, is_sell),
                emitted + 2, is_sell,
            );
        }
    }
}


pub struct MatchingEngine {
    pub buy_token: Pubkey,
    pub sell_token: Pubkey,
}

impl MatchingEngine {
    pub fn new(buy_token: Pubkey, sell_token: Pubkey) -> (r: Self)
        ensures
            r == (MatchingEngine { buy_token, sell_token }),
    {
        MatchingEngine { buy_token, sell_token }
    }

    /// One match step anchored on the incoming order's sell quantity
    /// against the best resting order's buy quantity.  The entries pushed
    /// carry exactly the quantities moved between the two orders, so no
    /// quantity is created or destroyed.
    #[verifier::rlimit(100)]
    pub fn order_match_sell(
        order: &mut OrderNode,
        sell_queue: &mut OrderHeapImpl,
        result: &mut Vec<Result<OrderSuccess, OrderFailed>>,
        order_type: OrderType,
    ) -> (completed: bool)
        requires
            old(sell_queue).wf(),
            old(sell_queue)@.len() > 0,
        ensures
            final(sell_queue).wf(),
            ({
                let best = old(sell_queue)@[0];
                let taker = *old(order);
                &&& completed == step_completed(taker, best, true)
                &&& final(result)@ == old(result)@ + step_entries_sell(taker, best, order_type)
                &&& final(sell_queue)@.to_multiset() == step_book_after(
                    old(sell_queue)@.to_multiset(), taker, best, true,
                )
                &&& final(sell_queue)@.len() as int == (if taker.sell_quantity < best.buy_quantity {
                    old(sell_queue)@.len() as int
                } else {
                    old(sell_queue)@.len() - 1
                })
                &&& *final(order) == (if step_completed(taker, best, true) {
                    taker
                } else {
                    taker_after(taker, best, order_type, true)
                })
            }),
            final(result)@.len() == old(result)@.len() + 2,
    {
        let ghost rr0 = result@;
        let best = match sell_queue.get_best_order() {
            Some(b) => *b,
            None => {
                proof {
                    assert(false);
                }
                return false;
            },
        };
        if order.sell_quantity < best.buy_quantity {
            let fill = mul_div(order.sell_quantity, best.sell_quantity, best.buy_quantity);
            result.push(Ok(OrderSuccess::Filled {
                order_id: order.id,
                owner: order.owner,
                oppo_user: best.owner,
                oppo_order_id: best.id,
                order_type,
                sell_quantity: order.sell_quantity,
                buy_quantity: fill,
                oppo_filled: false,
            }));
            result.push(Ok(OrderSuccess::PartiallyFilled {
                order_id: best.id,
                owner: best.owner,
                oppo_user: order.owner,
                oppo_order_id: order.id,
                order_type: OrderType::Limit,
                sell_quantity: fill,
                buy_quantity: order.sell_quantity,
                oppo_filled: true,
            }));
            sell_queue.reduce_best(order.sell_quantity, fill);
            proof {
                assert(result@ =~= rr0 + step_entries_sell(*old(order), best, order_type));
            }
            true
        } else if order.sell_quantity > best.buy_quantity {
            result.push(Ok(OrderSuccess::Filled {
                order_id: best.id,
                owner: best.owner,
                oppo_user: order.owner,
                oppo_order_id: order.id,
                order_type: OrderType::Limit,
                sell_quantity: best.sell_quantity,
                buy_quantity: best.buy_quantity,
                oppo_filled: false,
            }));
            result.push(Ok(OrderSuccess::PartiallyFilled {
                order_id: order.id,
                owner: order.owner,
                oppo_user: best.owner,
                oppo_order_id: best.id,
                order_type,
                sell_quantity: best.buy_quantity,
                buy_quantity: best.sell_quantity,
                oppo_filled: true,
            }));
            order.sell_quantity = order.sell_quantity - best.buy_quantity;
            if order_type == OrderType::Limit {
                // The cross decrement can exceed what the taker asked for
                // when the resting price is better; saturate at zero.
                if order.buy_quantity >= best.sell_quantity {
                    order.buy_quantity = order.buy_quantity - best.sell_quantity;
                } else {
                    order.buy_quantity = 0;
                }
            }
            proof {
                assert(old(sell_queue).contains_id(best.id)) by {
                    assert(old(sell_queue)@[0].id == best.id);
                }
            }
            match sell_queue.remove_order(best.id) {
                Ok(removed) => {
                    proof {
                        old(sell_queue).lemma_root_unique(removed);
                    }
                },
                Err(_) => {
                    proof {
                        assert(false);
                    }
                },
            }
            proof {
                assert(result@ =~= rr0 + step_entries_sell(*old(order), best, order_type));
                assert(*order == taker_after(*old(order), best, order_type, true));
            }
            false
        } else {
            result.push(Ok(OrderSuccess::Filled {
                order_id: order.id,
                owner: order.owner,
                oppo_user: best.owner,
                oppo_order_id: best.id,
                order_type,
                sell_quantity: best.buy_quantity,
                buy_quantity: best.sell_quantity,
                oppo_filled: true,
            }));
            result.push(Ok(OrderSuccess::Filled {
                order_id: best.id,
                owner: best.owner,
                oppo_user: order.owner,
                oppo_order_id: order.id,
                order_type: OrderType::Limit,
                sell_quantity: best.sell_quantity,
                buy_quantity: best.buy_quantity,
                oppo_filled: true,
            }));
            proof {
                assert(old(sell_queue).contains_id(best.id)) by {
                    assert(old(sell_queue)@[0].id == best.id);
                }
            }
            match sell_queue.remove_order(best.id) {
                Ok(removed) => {
                    proof {
                        old(sell_queue).lemma_root_unique(removed);
                    }
                },
                Err(_) => {
                    proof {
                        assert(false);
                    }
                },
            }
            proof {
                assert(result@ =~= rr0 + step_entries_sell(*old(order), best, order_type));
            }
            true
        }
    }

    /// One match step anchored on the incoming order's buy quantity against
    /// the best resting order's sell quantity: the mirror of
    /// `order_match_sell` for buy-side takers.
    #[verifier::rlimit(100)]
    pub fn order_match_buy(
        order: &mut OrderNode,
        sell_queue: &mut OrderHeapImpl,
        result: &mut Vec<Result<OrderSuccess, OrderFailed>>,
        order_type: OrderType,
    ) -> (completed: bool)
        requires
            old(sell_queue).wf(),
            old(sell_queue)@.len() > 0,
        ensures
            final(sell_queue).wf(),
            ({
                let best = old(sell_queue)@[0];
                let taker = *old(order);
                &&& completed == step_completed(taker, best, false)
                &&& final(result)@ == old(result)@ + step_entries_buy(taker, best, order_type)
                &&& final(sell_queue)@.to_multiset() == step_book_after(
                    old(sell_queue)@.to_multiset(), taker, best, false,
                )
                &&& final(sell_queue)@.len() as int == (if taker.buy_quantity < best.sell_quantity {
                    old(sell_queue)@.len() as int
                } else {
                    old(sell_queue)@.len() - 1
                })
                &&& *final(order) == (if step_completed(taker, best, false) {
                    taker
                } else {
                    taker_after(taker, best, order_type, false)
                })
            }),
            final(result)@.len() == old(result)@.len() + 2,
    {
        let ghost rr0 = result@;
        let best = match sell_queue.get_best_order() {
            Some(b) => *b,
            None => {
                proof {
                    assert(false);
                }
                return false;
            },
        };
        if order.buy_quantity < best.sell_quantity {
            let fill = mul_div(order.buy_quantity, best.buy_quantity, best.sell_quantity);
            result.push(Ok(OrderSuccess::Filled {
                order_id: order.id,
                owner: order.owner,
                oppo_user: best.owner,
                oppo_order_id: best.id,
                order_type,
                sell_quantity: fill,
                buy_quantity: order.buy_quantity,
                oppo_filled: false,
            }));
            result.push(Ok(OrderSuccess::PartiallyFilled {
                order_id: best.id,
                owner: best.owner,
                oppo_user: order.owner,
                oppo_order_id: order.id,
                order_type: OrderType::Limit,
                sell_quantity: order.buy_quantity,
                buy_quantity: fill,
                oppo_filled: true,
            }));
            sell_queue.reduce_best(fill, order.buy_quantity);
            proof {
                assert(result@ =~= rr0 + step_entries_buy(*old(order), best, order_type));
            }
            true
        } else if order.buy_quantity > best.sell_quantity {
            result.push(Ok(OrderSuccess::Filled {
                order_id: best.id,
                owner: best.owner,
                oppo_user: order.owner,
                oppo_order_id: order.id,
                order_type: OrderType::Limit,
                sell_quantity: best.sell_quantity,
                buy_quantity: best.buy_quantity,
                oppo_filled: false,
            }));
            result.push(Ok(OrderSuccess::PartiallyFilled {
                order_id: order.id,
                owner: order.owner,
                oppo_user: best.owner,
                oppo_order_id: best.id,
                order_type,
                sell_quantity: best.buy_quantity,
                buy_quantity: best.sell_quantity,
                oppo_filled: true,
            }));
            order.buy_quantity = order.buy_quantity - best.sell_quantity;
            if order.sell_quantity >= best.buy_quantity {
                order.sell_quantity = order.sell_quantity - best.buy_quantity;
            } else {
                order.sell_quantity = 0;
            }
            proof {
                assert(old(sell_queue).contains_id(best.id)) by {
                    assert(old(sell_queue)@[0].id == best.id);
                }
            }
            match sell_queue.remove_order(best.id) {
                Ok(removed) => {
                    proof {
                        old(sell_queue).lemma_root_unique(removed);
                    }
                },
                Err(_) => {
                    proof {
                        assert(false);
                    }
                },
            }
            proof {
                assert(result@ =~= rr0 + step_entries_buy(*old(order), best, order_type));
                assert(*order == taker_after(*old(order), best, order_type, false));
            }
            false
        } else {
            result.push(Ok(OrderSuccess::Filled {
                order_id: order.id,
                owner: order.owner,
                oppo_user: best.owner,
                oppo_order_id: best.id,
                order_type,
                sell_quantity: best.buy_quantity,
                buy_quantity: best.sell_quantity,
                oppo_filled: true,
            }));
            result.push(Ok(OrderSuccess::Filled {
                order_id: best.id,
                owner: best.owner,
                oppo_user: order.owner,
                oppo_order_id: order.id,
                order_type: OrderType::Limit,
                sell_quantity: best.sell_quantity,
                buy_quantity: best.buy_quantity,
                oppo_filled: true,
            }));
            proof {
                assert(old(sell_queue).contains_id(best.id)) by {
                    assert(old(sell_queue)@[0].id == best.id);
                }
            }
            match sell_queue.remove_order(best.id) {
                Ok(removed) => {
                    proof {
                        old(sell_queue).lemma_root_unique(removed);
                    }
                },
                Err(_) => {
                    proof {
                        assert(false);
                    }
                },
            }
            proof {
                assert(result@ =~= rr0 + step_entries_buy(*old(order), best, order_type));
            }
            true
        }
    }

    /// Dispatch one match step on the taker's side.  The entries recorded,
    /// the book's change and the taker's remainder are exactly those of the
    /// anchored step function for that side.
    pub fn order_match(
        order: &mut OrderNode,
        sell_queue: &mut OrderHeapImpl,
        result: &mut Vec<Result<OrderSuccess, OrderFailed>>,
        order_type: OrderType,
        is_sell: bool,
    ) -> (completed: bool)
        requires
            old(sell_queue).wf(),
            old(sell_queue)@.len() > 0,
        ensures
            final(sell_queue).wf(),
            ({
                let best = old(sell_queue)@[0];
                let taker = *old(order);
                &&& completed == step_completed(taker, best, is_sell)
                &&& final(result)@ == old(result)@ + step_entries(taker, best, order_type, is_sell)
                &&& final(sell_queue)@.to_multiset() == step_book_after(
                    old(sell_queue)@.to_multiset(), taker, best, is_sell,
                )
                &&& final(sell_queue)@.len() as int == (if (if is_sell {
                    taker.sell_quantity < best.buy_quantity
                } else {
                    taker.buy_quantity < best.sell_quantity
                }) {
                    old(sell_queue)@.len() as int
                } else {
                    old(sell_queue)@.len() - 1
                })
                &&& (!completed ==> final(sell_queue)@.len() == old(sell_queue)@.len() - 1)
                &&& *final(order) == (if step_completed(taker, best, is_sell) {
                    taker
                } else {
                    taker_after(taker, best, order_type, is_sell)
                })
            }),
            final(result)@.len() == old(result)@.len() + 2,
            old(result)@.is_prefix_of(final(result)@),
    {
        let r = if is_sell {
            Self::order_match_sell(order, sell_queue, result, order_type)
        } else {
            Self::order_match_buy(order, sell_queue, result, order_type)
        };
        proof {
            assert(old(result)@.is_prefix_of(result@)) by {
                assert(result@.subrange(0, old(result)@.len() as int)
                    =~= old(result)@);
            }
        }
        r
    }

    /// Match a limit order against the opposite book while it crosses, then
    /// rest the remainder on its own side.  The whole loop is pinned by
    /// `limit_drain`: the entries recorded, the book left behind and the
    /// resting remainder are a function of the entry state.  The result must
    /// hold the opening acceptance entry followed by whole match steps (an
    /// odd number of entries), which keeps every outcome within the budget.
    #[verifier::rlimit(100)]
    pub fn process_limit_order(
        buy_queue: &mut OrderHeapImpl,
        sell_queue: &mut OrderHeapImpl,
        order: OrderNode,
        result: &mut Vec<Result<OrderSuccess, OrderFailed>>,
        user_orderbook: &mut UserOrderbook,
        is_sell: bool,
    )
        requires
            old(buy_queue).wf(),
            old(sell_queue).wf(),
            old(user_orderbook).wf(),
            !old(buy_queue).contains_id(order.id),
            !old(user_orderbook)@.contains(order.id as u128),
            old(result)@.len() <= MAX_EVENTS as int,
            old(result)@.len() % 2 == 1,
        ensures
            final(buy_queue).wf(),
            final(sell_queue).wf(),
            final(user_orderbook).wf(),
            old(result)@.is_prefix_of(final(result)@),
            final(result)@.len() <= MAX_EVENTS as int,
            final(sell_queue)@.len() <= old(sell_queue)@.len(),
            // An empty opposite book rests the order outright.
            old(sell_queue)@.len() == 0 ==> {
                &&& *final(sell_queue) == *old(sell_queue)
                &&& rested(
                    old(buy_queue)@, old(user_orderbook)@, old(result)@, order,
                    final(buy_queue)@, final(user_orderbook)@, final(result)@,
                )
                &&& (old(user_orderbook)@.len() < USER_ORDERBOOK_CAP as int
                    && old(buy_queue)@.len() < ORDER_HEAP_CAPACITY as int
                    && old(buy_queue).index_fits(order.id)
                    ==> rest_succeeded(
                        old(buy_queue)@, old(user_orderbook)@, old(result)@, order,
                        final(buy_queue)@, final(user_orderbook)@, final(result)@,
                    ))
            },
            // An exhausted budget records one failure before any matching.
            old(sell_queue)@.len() > 0 && old(result)@.len() + 2 > MAX_EVENTS as int ==> {
                &&& final(result)@ == old(result)@.push(Err(too_many_events_of(order)))
                &&& *final(sell_queue) == *old(sell_queue)
                &&& *final(buy_queue) == *old(buy_queue)
                &&& *final(user_orderbook) == *old(user_orderbook)
            },
            // A non-crossing best rests the order outright.
            old(sell_queue)@.len() > 0 && old(result)@.len() + 2 <= MAX_EVENTS as int
                && !crosses(order, old(sell_queue)@[0]) ==> {
                &&& *final(sell_queue) == *old(sell_queue)
                &&& rested(
                    old(buy_queue)@, old(user_orderbook)@, old(result)@, order,
                    final(buy_queue)@, final(user_orderbook)@, final(result)@,
                )
                &&& (old(user_orderbook)@.len() < USER_ORDERBOOK_CAP as int
                    && old(buy_queue)@.len() < ORDER_HEAP_CAPACITY as int
                    && old(buy_queue).index_fits(order.id)
                    ==> rest_succeeded(
                        old(buy_queue)@, old(user_orderbook)@, old(result)@, order,
                        final(buy_queue)@, final(user_orderbook)@, final(result)@,
                    ))
            },
            // A crossing best that consumes the order: exactly one step.
            old(sell_queue)@.len() > 0 && old(result)@.len() + 2 <= MAX_EVENTS as int
                && crosses(order, old(sell_queue)@[0])
                && step_completed(order, old(sell_queue)@[0], is_sell) ==> {
                &&& final(result)@ == old(result)@
                    + step_entries(order, old(sell_queue)@[0], OrderType::Limit, is_sell)
                &&& final(sell_queue)@.to_multiset() == step_book_after(
                    old(sell_queue)@.to_multiset(), order, old(sell_queue)@[0], is_sell,
                )
                &&& *final(buy_queue) == *old(buy_queue)
                &&& *final(user_orderbook) == *old(user_orderbook)
            },
            // A crossing one-deep book that does not consume the order:
            // one step empties the book and the remainder rests.
            old(sell_queue)@.len() == 1 && old(result)@.len() + 2 <= MAX_EVENTS as int
                && crosses(order, old(sell_queue)@[0])
                && !step_completed(order, old(sell_queue)@[0], is_sell) ==> {
                &&& final(sell_queue)@.len() == 0
                &&& rested(
                    old(buy_queue)@, old(user_orderbook)@,
                    old(result)@ + step_entries(order, old(sell_queue)@[0], OrderType::Limit, is_sell),
                    taker_after(order, old(sell_queue)@[0], OrderType::Limit, is_sell),
                    final(buy_queue)@, final(user_orderbook)@, final(result)@,
                )
                &&& (old(user_orderbook)@.len() < USER_ORDERBOOK_CAP as int
                    && old(buy_queue)@.len() < ORDER_HEAP_CAPACITY as int
                    && old(buy_queue).index_fits(order.id)
                    ==> rest_succeeded(
                        old(buy_queue)@, old(user_orderbook)@,
                        old(result)@ + step_entries(order, old(sell_queue)@[0], OrderType::Limit, is_sell),
                        taker_after(order, old(sell_queue)@[0], OrderType::Limit, is_sell),
                        final(buy_queue)@, final(user_orderbook)@, final(result)@,
                    ))
            },
            // A deeper crossing book: the first step is still pinned.
            old(sell_queue)@.len() > 1 && old(result)@.len() + 2 <= MAX_EVENTS as int
                && crosses(order, old(sell_queue)@[0])
                && !step_completed(order, old(sell_queue)@[0], is_sell) ==> {
                &&& final(result)@.len() >= old(result)@.len() + 2
                &&& final(result)@.subrange(
                    old(result)@.len() as int, old(result)@.len() as int + 2,
                ) == step_entries(order, old(sell_queue)@[0], OrderType::Limit, is_sell)
            },
            // The loop, as a function of the entry state: steps are taken
            // while the budget holds and the best crosses; then either the
            // remainder rests (or one heap-full entry reports that it could
            // not) or the recorded entries close the order.
            ({
                let outcome = limit_drain(
                    old(sell_queue)@.to_multiset(), order, old(result)@.len() as int, is_sell,
                );
                &&& final(sell_queue)@.to_multiset() == outcome.book
                &&& (!outcome.rests ==> {
                    &&& final(result)@ == old(result)@ + outcome.entries
                    &&& *final(buy_queue) == *old(buy_queue)
                    &&& *final(user_orderbook) == *old(user_orderbook)
                })
                &&& (outcome.rests ==> {
                    &&& rested(
                        old(buy_queue)@, old(user_orderbook)@,
                        old(result)@ + outcome.entries, outcome.taker,
                        final(buy_queue)@, final(user_orderbook)@, final(result)@,
                    )
                    &&& (old(user_orderbook)@.len() < USER_ORDERBOOK_CAP as int
                        && old(buy_queue)@.len() < ORDER_HEAP_CAPACITY as int
                        && old(buy_queue).index_fits(order.id)
                        ==> rest_succeeded(
                            old(buy_queue)@, old(user_orderbook)@,
                            old(result)@ + outcome.entries, outcome.taker,
                            final(buy_queue)@, final(user_orderbook)@, final(result)@,
                        ))
                })
            }),
    {
        let ghost r0 = result@;
        let ghost ms0 = old(sell_queue)@.to_multiset();
        proof {
            broadcast use vstd::seq_lib::group_to_multiset_ensures;
            lemma_drain_keeps_id(ms0, order, r0.len() as int, is_sell);
        }
        let best0 = match sell_queue.get_best_order() {
            Some(b) => Some(*b),
            None => None,
        };
        let b = match best0 {
            None => {
                proof {
                    broadcast use vstd::seq_lib::group_to_multiset_ensures;
                    assert(ms0.len() == 0);
                }
                Self::rest_order(buy_queue, order, result, user_orderbook);
                proof {
                    assert(result@.subrange(0, r0.len() as int) =~= r0);
                    let outcome = limit_drain(ms0, order, r0.len() as int, is_sell);
                    assert(r0 + outcome.entries =~= r0);
                }
                return;
            },
            Some(b) => b,
        };
        proof {
            sell_queue.lemma_best_is_root();
        }
        if result.len() + 2 > MAX_EVENTS {
            result.push(Err(OrderFailed::TooManyEvents {
                order_id: order.id, owner: order.owner,
                sell_quantity: order.sell_quantity, buy_quantity: order.buy_quantity,
            }));
            proof {
                broadcast use vstd::seq_lib::group_to_multiset_ensures;
                assert(result@.subrange(0, r0.len() as int) =~= r0);
                let outcome = limit_drain(ms0, order, r0.len() as int, is_sell);
                assert(result@ =~= r0 + outcome.entries);
            }
            return;
        }
        if !crosses_exec(&order, &b) {
            Self::rest_order(buy_queue, order, result, user_orderbook);
            proof {
                broadcast use vstd::seq_lib::group_to_multiset_ensures;
                assert(result@.subrange(0, r0.len() as int) =~= r0);
                let outcome = limit_drain(ms0, order, r0.len() as int, is_sell);
                assert(r0 + outcome.entries =~= r0);
            }
            return;
        }
        let mut taker = order;
        let completed = Self::order_match(&mut taker, sell_queue, result, OrderType::Limit, is_sell);
        proof {
            broadcast use vstd::seq_lib::group_to_multiset_ensures;
            assert(result@.subrange(0, r0.len() as int) =~= r0);
            assert(sell_queue@.to_multiset() == step_book_after(ms0, order, b, is_sell));
            if !completed {
                assert(sell_queue@.to_multiset().len() == sell_queue@.len());
                assert(step_book_after(ms0, order, b, is_sell).len() < ms0.len());
            }
        }
        if completed {
            proof {
                let outcome = limit_drain(ms0, order, r0.len() as int, is_sell);
                assert(result@ =~= r0 + outcome.entries);
            }
            return;
        }
        if sell_queue.len() == 0 {
            proof {
                broadcast use vstd::seq_lib::group_to_multiset_ensures;
                assert(sell_queue@.to_multiset().len() == 0);
            }
            Self::rest_order(buy_queue, taker, result, user_orderbook);
            proof {
                assert(result@.subrange(0, r0.len() as int) =~= r0);
                let outcome = limit_drain(ms0, order, r0.len() as int, is_sell);
                let rec = limit_drain(
                    step_book_after(ms0, order, b, is_sell),
                    taker_after(order, b, OrderType::Limit, is_sell),
                    r0.len() as int + 2, is_sell,
                );
                assert(rec.entries =~= Seq::<Result<OrderSuccess, OrderFailed>>::empty());
                assert(outcome.entries
                    =~= step_entries(order, b, OrderType::Limit, is_sell));
                assert(r0 + outcome.entries
                    =~= r0 + step_entries(order, b, OrderType::Limit, is_sell));
            }
            return;
        }
        // More of the book crosses or rests below: continue step by step.
        let ghost rm = result@;
        proof {
            broadcast use vstd::seq_lib::group_to_multiset_ensures;
            assert(rm =~= r0 + step_entries(order, b, OrderType::Limit, is_sell));
        }
        loop
            invariant_except_break
                !buy_queue.contains_id(taker.id),
                !user_orderbook@.contains(taker.id as u128),
                taker.id == order.id,
                result@.len() <= MAX_EVENTS as int,
                result@.len() % 2 == r0.len() % 2,
                *buy_queue == *old(buy_queue),
                *user_orderbook == *old(user_orderbook),
                ({
                    let outcome = limit_drain(ms0, order, r0.len() as int, is_sell);
                    let cur = limit_drain(
                        sell_queue@.to_multiset(), taker, result@.len() as int, is_sell,
                    );
                    &&& outcome.book == cur.book
                    &&& outcome.taker == cur.taker
                    &&& outcome.rests == cur.rests
                    &&& outcome.entries == result@.skip(r0.len() as int) + cur.entries
                }),
            invariant
                buy_queue.wf(),
                sell_queue.wf(),
                user_orderbook.wf(),
                rm.is_prefix_of(result@),
                r0.is_prefix_of(rm),
                rm.len() == r0.len() + 2,
                result@.len() <= MAX_EVENTS as int + 1,
                sell_queue@.len() <= old(sell_queue)@.len(),
                ms0 == old(sell_queue)@.to_multiset(),
            ensures
                buy_queue.wf(),
                sell_queue.wf(),
                user_orderbook.wf(),
                rm.is_prefix_of(result@),
                result@.len() <= MAX_EVENTS as int + 1,
                r0.len() % 2 == 1 ==> result@.len() <= MAX_EVENTS as int,
                sell_queue@.len() <= old(sell_queue)@.len(),
                ({
                    let outcome = limit_drain(ms0, order, r0.len() as int, is_sell);
                    &&& sell_queue@.to_multiset() == outcome.book
                    &&& (!outcome.rests ==> result@ == r0 + outcome.entries
                        && *buy_queue == *old(buy_queue)
                        && *user_orderbook == *old(user_orderbook))
                    &&& (outcome.rests ==> rested(
                        old(buy_queue)@, old(user_orderbook)@,
                        r0 + outcome.entries, outcome.taker,
                        buy_queue@, user_orderbook@, result@,
                    ) && (old(user_orderbook)@.len() < USER_ORDERBOOK_CAP as int
                        && old(buy_queue)@.len() < ORDER_HEAP_CAPACITY as int
                        && old(buy_queue).index_fits(order.id)
                        ==> rest_succeeded(
                            old(buy_queue)@, old(user_orderbook)@,
                            r0 + outcome.entries, outcome.taker,
                            buy_queue@, user_orderbook@, result@,
                        )))
                }),
            decreases sell_queue@.len(),
        {
            let ghost outcome = limit_drain(ms0, order, r0.len() as int, is_sell);
            let best = match sell_queue.get_best_order() {
                Some(bb) => Some(*bb),
                None => None,
            };
            match best {
                None => {
                    proof {
                        broadcast use vstd::seq_lib::group_to_multiset_ensures;
                        assert(sell_queue@.to_multiset().len() == 0);
                        assert(outcome.entries =~= result@.skip(r0.len() as int));
                        assert(r0 + outcome.entries =~= result@);
                    }
                    Self::rest_order(buy_queue, taker, result, user_orderbook);
                    proof {
                        assert(result@.subrange(0, rm.len() as int) =~= rm);
                    }
                    break;
                },
                Some(bb) => {
                    proof {
                        sell_queue.lemma_best_is_root();
                    }
                    if result.len() + 2 > MAX_EVENTS {
                        result.push(Err(OrderFailed::TooManyEvents {
                            order_id: taker.id, owner: taker.owner,
                            sell_quantity: taker.sell_quantity,
                            buy_quantity: taker.buy_quantity,
                        }));
                        proof {
                            assert(result@.subrange(0, rm.len() as int) =~= rm);
                            assert(result@.subrange(0, r0.len() as int) =~= r0);
                            assert(r0 + outcome.entries =~= result@);
                        }
                        break;
                    }
                    if crosses_exec(&taker, &bb) {
                        let ghost ms_here = sell_queue@.to_multiset();
                        let ghost taker_here = taker;
                        let ghost len_here = result@.len() as int;
                        let completed = Self::order_match(
                            &mut taker, sell_queue, result, OrderType::Limit, is_sell,
                        );
                        proof {
                            broadcast use vstd::seq_lib::group_to_multiset_ensures;
                            assert(result@.subrange(0, rm.len() as int) =~= rm);
                            assert(result@.subrange(0, r0.len() as int) =~= r0);
                            if !completed {
                                assert(step_book_after(ms_here, taker_here, bb, is_sell).len()
                                    < ms_here.len());
                                assert(outcome.entries =~= result@.skip(r0.len() as int)
                                    + limit_drain(
                                        sell_queue@.to_multiset(), taker,
                                        result@.len() as int, is_sell,
                                    ).entries);
                            } else {
                                assert(r0 + outcome.entries =~= result@);
                            }
                        }
                        if completed {
                            break;
                        }
                    } else {
                        proof {
                            assert(outcome.entries =~= result@.skip(r0.len() as int));
                            assert(r0 + outcome.entries =~= result@);
                        }
                        Self::rest_order(buy_queue, taker, result, user_orderbook);
                        proof {
                            assert(result@.subrange(0, rm.len() as int) =~= rm);
                        }
                        break;
                    }
                },
            }
        }
        proof {
            assert(result@.subrange(0, r0.len() as int) =~= r0);
            assert(result@.subrange(0, rm.len() as int) =~= rm);
        }
    }

    /// Rest an order on its own side, registering it with the owner's
    /// orderbook; on any capacity limit — the book's, its index arena's or
    /// the owner's orderbook's — nothing rests and one `OrderHeapFull`
    /// entry reports it, carrying the order's remaining quantities so the
    /// escrow can be released.  Success is owed while the owner's orderbook
    /// and the book are below capacity and the index arena fits the id.
    fn rest_order(
        buy_queue: &mut OrderHeapImpl,
        order: OrderNode,
        result: &mut Vec<Result<OrderSuccess, OrderFailed>>,
        user_orderbook: &mut UserOrderbook,
    )
        requires
            old(buy_queue).wf(),
            old(user_orderbook).wf(),
            !old(buy_queue).contains_id(order.id),
            !old(user_orderbook)@.contains(order.id as u128),
        ensures
            final(buy_queue).wf(),
            final(user_orderbook).wf(),
            rested(
                old(buy_queue)@, old(user_orderbook)@, old(result)@, order,
                final(buy_queue)@, final(user_orderbook)@, final(result)@,
            ),
            old(user_orderbook)@.len() < USER_ORDERBOOK_CAP as int
                && old(buy_queue)@.len() < ORDER_HEAP_CAPACITY as int
                && old(buy_queue).index_fits(order.id)
                ==> rest_succeeded(
                    old(buy_queue)@, old(user_orderbook)@, old(result)@, order,
                    final(buy_queue)@, final(user_orderbook)@, final(result)@,
                ),
            final(result)@.len() <= old(result)@.len() + 1,
            final(buy_queue).contains_id(order.id) || *final(buy_queue) == *old(buy_queue),
    {
        match user_orderbook.add_order(order.id as u128) {
            Ok(()) => {
                match buy_queue.add_order(order) {
                    Ok(()) => {
                        proof {
                            assert(buy_queue@.to_multiset()
                                == old(buy_queue)@.to_multiset().insert(order));
                            assert(user_orderbook@
                                == old(user_orderbook)@.push(order.id as u128));
                        }
                    },
                    Err(_) => {
                        user_orderbook.try_remove_order(order.id as u128);
                        proof {
                            let pushed = old(user_orderbook)@.push(order.id as u128);
                            assert(pushed[pushed.len() - 1] == order.id as u128);
                            assert(pushed.contains(order.id as u128));
                            let i = choose|i: int| 0 <= i < pushed.len()
                                && pushed[i] == order.id as u128
                                && user_orderbook@ == pushed.remove(i);
                            assert(i == pushed.len() - 1) by {
                                if i < pushed.len() - 1 {
                                    assert(old(user_orderbook)@[i] == order.id as u128);
                                    assert(old(user_orderbook)@.contains(order.id as u128));
                                }
                            }
                            assert(user_orderbook@ =~= old(user_orderbook)@);
                        }
                        result.push(Err(OrderFailed::OrderHeapFull {
                            order_id: order.id, owner: order.owner,
                            sell_quantity: order.sell_quantity,
                            buy_quantity: order.buy_quantity,
                        }));
                        proof {
                            assert(result@.len() == old(result)@.len() + 1);
                            assert(result@ != old(result)@);
                        }
                    },
                }
            },
            Err(_) => {
                result.push(Err(OrderFailed::OrderHeapFull {
                    order_id: order.id, owner: order.owner,
                    sell_quantity: order.sell_quantity,
                    buy_quantity: order.buy_quantity,
                }));
                proof {
                    assert(result@.len() == old(result)@.len() + 1);
                    assert(result@ != old(result)@);
                }
            },
        }
    }

    /// Match a market order until it is satisfied or the opposite book is
    /// exhausted; the remainder is dropped with a `NoMatch` entry, never
    /// rested.  The whole loop is pinned by `market_drain`: the entries
    /// recorded and the book left behind are a function of the entry state.
    /// As for limit orders, the result must hold the acceptance entry
    /// followed by whole match steps, which keeps every outcome within the
    /// budget.
    #[verifier::rlimit(100)]
    pub fn process_market_order(
        buy_queue: &mut OrderHeapImpl,
        sell_queue: &mut OrderHeapImpl,
        order: OrderNode,
        result: &mut Vec<Result<OrderSuccess, OrderFailed>>,
        is_sell: bool,
    )
        requires
            old(buy_queue).wf(),
            old(sell_queue).wf(),
            old(result)@.len() <= MAX_EVENTS as int,
            old(result)@.len() % 2 == 1,
        ensures
            final(sell_queue).wf(),
            *final(buy_queue) == *old(buy_queue),
            old(result)@.is_prefix_of(final(result)@),
            final(result)@.len() <= MAX_EVENTS as int,
            final(result)@.len() > old(result)@.len(),
            final(sell_queue)@.len() <= old(sell_queue)@.len(),
            // An exhausted budget records one failure before any matching.
            old(result)@.len() + 2 > MAX_EVENTS as int ==> {
                &&& final(result)@ == old(result)@.push(Err(too_many_events_of(order)))
                &&& *final(sell_queue) == *old(sell_queue)
            },
            // An empty opposite book within budget: one no-match, no change.
            old(result)@.len() + 2 <= MAX_EVENTS as int && old(sell_queue)@.len() == 0 ==> {
                &&& final(result)@ == old(result)@.push(Err(no_match_of(order)))
                &&& *final(sell_queue) == *old(sell_queue)
            },
            // One step consumes the order: exactly that step.
            old(result)@.len() + 2 <= MAX_EVENTS as int && old(sell_queue)@.len() > 0
                && step_completed(order, old(sell_queue)@[0], is_sell) ==> {
                &&& final(result)@ == old(result)@
                    + step_entries(order, old(sell_queue)@[0], OrderType::Market, is_sell)
                &&& final(sell_queue)@.to_multiset() == step_book_after(
                    old(sell_queue)@.to_multiset(), order, old(sell_queue)@[0], is_sell,
                )
            },
            // A one-deep book that does not satisfy the order: the step
            // empties the book, and the remainder is reported, not rested.
            old(result)@.len() + 2 <= MAX_EVENTS as int && old(sell_queue)@.len() == 1
                && !step_completed(order, old(sell_queue)@[0], is_sell) ==> {
                &&& final(sell_queue)@.len() == 0
                &&& final(result)@ == old(result)@
                    + step_entries(order, old(sell_queue)@[0], OrderType::Market, is_sell)
                    + seq![if old(result)@.len() + 4 > MAX_EVENTS as int {
                        Err::<OrderSuccess, OrderFailed>(too_many_events_of(
                            taker_after(order, old(sell_queue)@[0], OrderType::Market, is_sell)))
                    } else {
                        Err::<OrderSuccess, OrderFailed>(no_match_of(
                            taker_after(order, old(sell_queue)@[0], OrderType::Market, is_sell)))
                    }]
            },
            // A deeper book: the first step is still pinned.
            old(result)@.len() + 2 <= MAX_EVENTS as int && old(sell_queue)@.len() > 1
                && !step_completed(order, old(sell_queue)@[0], is_sell) ==> {
                &&& final(result)@.len() >= old(result)@.len() + 2
                &&& final(result)@.subrange(
                    old(result)@.len() as int, old(result)@.len() as int + 2,
                ) == step_entries(order, old(sell_queue)@[0], OrderType::Market, is_sell)
            },
            // The loop, as a function of the entry state.
            ({
                let outcome = market_drain(
                    old(sell_queue)@.to_multiset(), order, old(result)@.len() as int, is_sell,
                );
                &&& final(sell_queue)@.to_multiset() == outcome.book
                &&& final(result)@ == old(result)@ + outcome.entries
            }),
    {
        let ghost r0 = result@;
        let ghost ms0 = old(sell_queue)@.to_multiset();
        if result.len() + 2 > MAX_EVENTS {
            result.push(Err(OrderFailed::TooManyEvents {
                order_id: order.id, owner: order.owner,
                sell_quantity: order.sell_quantity, buy_quantity: order.buy_quantity,
            }));
            proof {
                assert(result@.subrange(0, r0.len() as int) =~= r0);
                let outcome = market_drain(ms0, order, r0.len() as int, is_sell);
                assert(result@ =~= r0 + outcome.entries);
            }
            return;
        }
        if sell_queue.len() == 0 {
            result.push(Err(OrderFailed::NoMatch {
                order_id: order.id, owner: order.owner,
                sell_quantity: order.sell_quantity, buy_quantity: order.buy_quantity,
            }));
            proof {
                broadcast use vstd::seq_lib::group_to_multiset_ensures;
                assert(ms0.len() == 0);
                assert(result@.subrange(0, r0.len() as int) =~= r0);
                let outcome = market_drain(ms0, order, r0.len() as int, is_sell);
                assert(result@ =~= r0 + outcome.entries);
            }
            return;
        }
        proof {
            sell_queue.lemma_best_is_root();
        }
        let ghost b = old(sell_queue)@[0];
        let mut taker = order;
        let completed = Self::order_match(&mut taker, sell_queue, result, OrderType::Market, is_sell);
        proof {
            broadcast use vstd::seq_lib::group_to_multiset_ensures;
            assert(result@.subrange(0, r0.len() as int) =~= r0);
            assert(sell_queue@.to_multiset() == step_book_after(ms0, order, b, is_sell));
            if !completed {
                assert(sell_queue@.to_multiset().len() == sell_queue@.len());
                assert(step_book_after(ms0, order, b, is_sell).len() < ms0.len());
            }
        }
        if completed {
            proof {
                let outcome = market_drain(ms0, order, r0.len() as int, is_sell);
                assert(result@ =~= r0 + outcome.entries);
            }
            return;
        }
        if result.len() + 2 > MAX_EVENTS {
            result.push(Err(OrderFailed::TooManyEvents {
                order_id: taker.id, owner: taker.owner,
                sell_quantity: taker.sell_quantity, buy_quantity: taker.buy_quantity,
            }));
            proof {
                assert(result@.subrange(0, r0.len() as int) =~= r0);
                assert(result@ =~= r0
                    + step_entries(order, b, OrderType::Market, is_sell)
                    + seq![Err::<OrderSuccess, OrderFailed>(too_many_events_of(taker))]);
                let outcome = market_drain(ms0, order, r0.len() as int, is_sell);
                let rec = market_drain(
                    step_book_after(ms0, order, b, is_sell),
                    taker_after(order, b, OrderType::Market, is_sell),
                    r0.len() as int + 2, is_sell,
                );
                assert(rec.entries
                    =~= seq![Err::<OrderSuccess, OrderFailed>(too_many_events_of(taker))]);
                assert(outcome.entries =~= step_entries(order, b, OrderType::Market, is_sell)
                    + rec.entries);
                assert(result@ =~= r0 + outcome.entries);
            }
            return;
        }
        if sell_queue.len() == 0 {
            result.push(Err(OrderFailed::NoMatch {
                order_id: taker.id, owner: taker.owner,
                sell_quantity: taker.sell_quantity, buy_quantity: taker.buy_quantity,
            }));
            proof {
                broadcast use vstd::seq_lib::group_to_multiset_ensures;
                assert(result@.subrange(0, r0.len() as int) =~= r0);
                assert(sell_queue@.to_multiset().len() == 0);
                let outcome = market_drain(ms0, order, r0.len() as int, is_sell);
                let rec = market_drain(
                    step_book_after(ms0, order, b, is_sell),
                    taker_after(order, b, OrderType::Market, is_sell),
                    r0.len() as int + 2, is_sell,
                );
                assert(rec.entries
                    =~= seq![Err::<OrderSuccess, OrderFailed>(no_match_of(taker))]);
                assert(outcome.entries =~= step_entries(order, b, OrderType::Market, is_sell)
                    + rec.entries);
                assert(result@ =~= r0
                    + step_entries(order, b, OrderType::Market, is_sell)
                    + seq![Err::<OrderSuccess, OrderFailed>(no_match_of(taker))]);
                assert(result@ =~= r0 + outcome.entries);
            }
            return;
        }
        let ghost rm = result@;
        loop
            invariant_except_break
                taker.id == order.id,
                result@.len() <= MAX_EVENTS as int,
                result@.len() % 2 == r0.len() % 2,
                ({
                    let outcome = market_drain(ms0, order, r0.len() as int, is_sell);
                    let cur = market_drain(
                        sell_queue@.to_multiset(), taker, result@.len() as int, is_sell,
                    );
                    &&& outcome.book == cur.book
                    &&& outcome.taker == cur.taker
                    &&& outcome.entries == result@.skip(r0.len() as int) + cur.entries
                }),
            invariant
                buy_queue.wf(),
                sell_queue.wf(),
                *buy_queue == *old(buy_queue),
                rm.is_prefix_of(result@),
                r0.is_prefix_of(rm),
                rm.len() == r0.len() + 2,
                result@.len() <= MAX_EVENTS as int + 1,
                result@.len() > r0.len(),
                sell_queue@.len() <= old(sell_queue)@.len(),
                ms0 == old(sell_queue)@.to_multiset(),
            ensures
                sell_queue.wf(),
                *buy_queue == *old(buy_queue),
                rm.is_prefix_of(result@),
                result@.len() <= MAX_EVENTS as int + 1,
                r0.len() % 2 == 1 ==> result@.len() <= MAX_EVENTS as int,
                result@.len() > r0.len(),
                sell_queue@.len() <= old(sell_queue)@.len(),
                ({
                    let outcome = market_drain(ms0, order, r0.len() as int, is_sell);
                    &&& sell_queue@.to_multiset() == outcome.book
                    &&& result@ == r0 + outcome.entries
                }),
            decreases sell_queue@.len(),
        {
            let ghost outcome = market_drain(ms0, order, r0.len() as int, is_sell);
            if result.len() + 2 > MAX_EVENTS {
                result.push(Err(OrderFailed::TooManyEvents {
                    order_id: taker.id, owner: taker.owner,
                    sell_quantity: taker.sell_quantity, buy_quantity: taker.buy_quantity,
                }));
                proof {
                    assert(result@.subrange(0, rm.len() as int) =~= rm);
                    assert(result@.subrange(0, r0.len() as int) =~= r0);
                    assert(r0 + outcome.entries =~= result@);
                }
                break;
            }
            let has_best = sell_queue.len() > 0;
            if has_best {
                proof {
                    sell_queue.lemma_best_is_root();
                }
                let ghost ms_here = sell_queue@.to_multiset();
                let ghost taker_here = taker;
                let ghost bb = sell_queue@[0];
                let completed = Self::order_match(
                    &mut taker, sell_queue, result, OrderType::Market, is_sell,
                );
                proof {
                    broadcast use vstd::seq_lib::group_to_multiset_ensures;
                    assert(result@.subrange(0, rm.len() as int) =~= rm);
                    assert(result@.subrange(0, r0.len() as int) =~= r0);
                    if !completed {
                        assert(step_book_after(ms_here, taker_here, bb, is_sell).len()
                            < ms_here.len());
                        assert(outcome.entries =~= result@.skip(r0.len() as int)
                            + market_drain(
                                sell_queue@.to_multiset(), taker,
                                result@.len() as int, is_sell,
                            ).entries);
                    } else {
                        assert(r0 + outcome.entries =~= result@);
                    }
                }
                if completed {
                    break;
                }
            } else {
                result.push(Err(OrderFailed::NoMatch {
                    order_id: taker.id, owner: taker.owner,
                    sell_quantity: taker.sell_quantity, buy_quantity: taker.buy_quantity,
                }));
                proof {
                    broadcast use vstd::seq_lib::group_to_multiset_ensures;
                    assert(sell_queue@.to_multiset().len() == 0);
                    assert(result@.subrange(0, rm.len() as int) =~= rm);
                    assert(result@.subrange(0, r0.len() as int) =~= r0);
                    assert(r0 + outcome.entries =~= result@);
                }
                break;
            }
        }
        proof {
            assert(result@.subrange(0, r0.len() as int) =~= r0);
            assert(result@.subrange(0, rm.len() as int) =~= rm);
        }
    }

    /// Process one order request: record the acceptance, then match it as a
    /// limit or market order.  The taker's side heap is `buy_queue`, the
    /// opposite side is `sell_queue`.  The outcome is pinned from the entry
    /// state: a non-crossing or empty book rests a limit order and reports a
    /// market order unmatched; a crossing book takes the exact match step,
    /// and a one-deep book's full outcome, remainder included, is fixed.
    #[verifier::rlimit(100)]
    pub fn process_order(
        &self,
        buy_queue: &mut OrderHeapImpl,
        sell_queue: &mut OrderHeapImpl,
        user_orderbook: &mut UserOrderbook,
        order: OrderRequest,
    ) -> (result: Vec<Result<OrderSuccess, OrderFailed>>)
        requires
            old(buy_queue).wf(),
            old(sell_queue).wf(),
            old(user_orderbook).wf(),
            !old(buy_queue).contains_id(order.id),
            !old(user_orderbook)@.contains(order.id as u128),
        ensures
            final(buy_queue).wf(),
            final(sell_queue).wf(),
            final(user_orderbook).wf(),
            result@.len() >= 1,
            result@[0] == Ok::<OrderSuccess, OrderFailed>(OrderSuccess::Accepted {
                order_id: order.id,
                order_type: order.order_type,
            }),
            result@.len() <= MAX_EVENTS as int,
            final(sell_queue)@.len() <= old(sell_queue)@.len(),
            order.order_type == OrderType::Market ==> *final(buy_queue) == *old(buy_queue)
                && *final(user_orderbook) == *old(user_orderbook),
            process_outcome(
                *old(buy_queue), *old(sell_queue), old(user_orderbook)@, order,
                *final(buy_queue), *final(sell_queue), final(user_orderbook)@, result@,
            ),
    {
        let mut result: Vec<Result<OrderSuccess, OrderFailed>> = Vec::new();
        let node = order.to_order_node();
        let is_sell = order.order_side == OrderSide::Sell;
        result.push(Ok(OrderSuccess::Accepted {
            order_id: order.id,
            order_type: order.order_type,
        }));
        let ghost racc = result@;
        proof {
            assert(racc =~= seq![Ok::<OrderSuccess, OrderFailed>(OrderSuccess::Accepted {
                order_id: order.id,
                order_type: order.order_type,
            })]);
        }
        if order.order_type == OrderType::Limit {
            Self::process_limit_order(
                buy_queue, sell_queue, node, &mut result, user_orderbook, is_sell,
            );
        } else {
            Self::process_market_order(buy_queue, sell_queue, node, &mut result, is_sell);
        }
        proof {
            assert(racc.is_prefix_of(result@));
            assert(result@.subrange(0, 1)[0] == result@[0]);
            assert(result@[0] == racc[0]);
            let acc = Ok::<OrderSuccess, OrderFailed>(OrderSuccess::Accepted {
                order_id: order.id,
                order_type: order.order_type,
            });
            let miss = Err::<OrderSuccess, OrderFailed>(no_match_of(order.spec_order_node()));
            assert(racc.push(miss) =~= seq![acc, miss]);
        }
        result
    }
}

} // verus!

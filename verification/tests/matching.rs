use rust_dex::dex::{drain_settlement, submit_order, DexManager};
use rust_dex::errors::ErrorCode;
use rust_dex::event_list::EventList;
use rust_dex::keys::Pubkey;
use rust_dex::ledger::UserOrderbook;
use rust_dex::matching_engine::{MatchingEngine, OrderFailed, OrderSuccess};
use rust_dex::order_heap::OrderHeapImpl;
use rust_dex::order_node::{OrderNode, OrderRequest, OrderSide, OrderType};

fn user(n: u128) -> Pubkey {
    Pubkey::new(0, n)
}

fn request(id: u64, buy: u64, sell: u64, who: u128, ty: OrderType, side: OrderSide) -> OrderRequest {
    OrderRequest::new(id, buy, sell, user(10), user(11), user(who), 0, ty, side)
}

fn resting(id: u64, buy: u64, sell: u64, who: u128) -> OrderNode {
    OrderNode::new(id, buy, sell, user(11), user(10), user(who), 0)
}

#[test]
fn limit_into_empty_book_rests() {
    let mut bids = OrderHeapImpl::new();
    let mut asks = OrderHeapImpl::new();
    let mut uob = UserOrderbook::new();
    let engine = MatchingEngine::new(user(10), user(11));
    let req = request(1, 100, 50, 7, OrderType::Limit, OrderSide::Buy);
    let result = engine.process_order(&mut bids, &mut asks, &mut uob, req);
    assert_eq!(result.len(), 1);
    assert!(matches!(result[0], Ok(OrderSuccess::Accepted { order_id: 1, .. })));
    assert_eq!(bids.len(), 1);
    assert_eq!(asks.len(), 0);
}

#[test]
fn exact_match_fills_both_sides() {
    let mut bids = OrderHeapImpl::new();
    let mut asks = OrderHeapImpl::new();
    let mut uob = UserOrderbook::new();
    asks.add_order(resting(1, 50, 100, 5)).unwrap();
    let engine = MatchingEngine::new(user(10), user(11));
    let req = request(2, 100, 50, 7, OrderType::Limit, OrderSide::Buy);
    let result = engine.process_order(&mut bids, &mut asks, &mut uob, req);
    assert_eq!(result.len(), 3);
    assert!(matches!(result[0], Ok(OrderSuccess::Accepted { .. })));
    assert!(matches!(
        result[1],
        Ok(OrderSuccess::Filled { order_id: 2, oppo_order_id: 1, .. })
    ));
    assert!(matches!(
        result[2],
        Ok(OrderSuccess::Filled { order_id: 1, oppo_order_id: 2, .. })
    ));
    assert_eq!(bids.len(), 0);
    assert_eq!(asks.len(), 0);
}

#[test]
fn partial_fill_rests_remainder() {
    let mut bids = OrderHeapImpl::new();
    let mut asks = OrderHeapImpl::new();
    let mut uob = UserOrderbook::new();
    asks.add_order(resting(1, 30, 30, 5)).unwrap();
    let engine = MatchingEngine::new(user(10), user(11));
    let req = request(2, 50, 50, 7, OrderType::Limit, OrderSide::Buy);
    let result = engine.process_order(&mut bids, &mut asks, &mut uob, req);
    assert_eq!(result.len(), 3);
    assert!(matches!(result[0], Ok(OrderSuccess::Accepted { .. })));
    // The resting order is consumed in full, the incoming order in part,
    // and the two entries account for the same moved quantities.
    match (result[1], result[2]) {
        (
            Ok(OrderSuccess::Filled { order_id: 1, sell_quantity: fs, buy_quantity: fb, .. }),
            Ok(OrderSuccess::PartiallyFilled {
                order_id: 2, sell_quantity: ps, buy_quantity: pb, ..
            }),
        ) => {
            assert_eq!(fs, 30);
            assert_eq!(fb, 30);
            assert_eq!(ps, 30);
            assert_eq!(pb, 30);
        },
        _ => panic!("unexpected entries"),
    }
    assert_eq!(asks.len(), 0);
    assert_eq!(bids.len(), 1);
    let rest = bids.get_order_by_id(2).unwrap();
    assert_eq!(rest.buy_quantity, 20);
    assert_eq!(rest.sell_quantity, 20);
}

#[test]
fn market_order_against_empty_book_reports_no_match() {
    let mut bids = OrderHeapImpl::new();
    let mut asks = OrderHeapImpl::new();
    let mut uob = UserOrderbook::new();
    let engine = MatchingEngine::new(user(10), user(11));
    let req = request(3, 100, 0, 7, OrderType::Market, OrderSide::Buy);
    let result = engine.process_order(&mut bids, &mut asks, &mut uob, req);
    assert_eq!(result.len(), 2);
    assert!(matches!(result[0], Ok(OrderSuccess::Accepted { .. })));
    assert!(matches!(result[1], Err(OrderFailed::NoMatch { order_id: 3, .. })));
    assert_eq!(bids.len(), 0);
    assert_eq!(asks.len(), 0);
}

#[test]
fn remove_missing_id_leaves_book_untouched() {
    let mut asks = OrderHeapImpl::new();
    asks.add_order(resting(1, 30, 30, 5)).unwrap();
    let r = asks.remove_order(999);
    assert!(matches!(r, Err(ErrorCode::OrderNotFound)));
    assert_eq!(asks.len(), 1);
    assert_eq!(asks.get_best_order().unwrap().id, 1);
    assert!(asks.get_order_by_id(1).is_some());
}

#[test]
fn outbox_single_session() {
    let mut outbox = EventList::new();
    outbox.open(user(7), user(10), user(11), 1).unwrap();
    let again = outbox.open(user(7), user(10), user(11), 2);
    assert!(matches!(again, Err(ErrorCode::EventListAlreadyInUse)));
    assert_eq!(outbox.get_order_id(), 1);

    for i in 0..16u64 {
        outbox.add_event(user(5), i, i, false, i, true, true).unwrap();
    }
    let overflow = outbox.add_event(user(5), 99, 99, false, 99, true, true);
    assert!(matches!(overflow, Err(ErrorCode::EventListFull)));
    assert_eq!(outbox.length(), 16);
}

#[test]
fn settlement_drain_checks_counterparty() {
    let mut bids = OrderHeapImpl::new();
    let mut asks = OrderHeapImpl::new();
    let mut uob = UserOrderbook::new();
    let mut outbox = EventList::new();
    asks.add_order(resting(1, 50, 100, 5)).unwrap();
    let req = request(2, 100, 50, 7, OrderType::Limit, OrderSide::Buy);
    submit_order(&mut bids, &mut asks, &mut uob, &mut outbox, req).unwrap();
    assert!(!outbox.is_closed());
    assert_eq!(outbox.length(), 1);

    let wrong = drain_settlement(&mut outbox, user(6));
    assert!(matches!(wrong, Err(ErrorCode::InconsistentUserKey)));
    assert_eq!(outbox.length(), 1);

    let eff = drain_settlement(&mut outbox, user(5)).unwrap().unwrap();
    assert_eq!(eff.oppo_user, user(5));
    assert_eq!(eff.sell_quantity, 50);
    assert_eq!(eff.buy_quantity, 100);
    assert!(!eff.rollback);
    assert!(outbox.is_closed());
    assert!(matches!(drain_settlement(&mut outbox, user(5)), Ok(None)));
}

#[test]
fn sequence_numbers_are_monotonic() {
    let mut mgr = DexManager::new();
    assert_eq!(mgr.next_sequence_number(), 1);
    assert_eq!(mgr.next_sequence_number(), 2);
    assert_eq!(mgr.next_sequence_number(), 3);
    assert_eq!(mgr.sequence_number, 3);
}

#[test]
fn cancel_removes_from_book_and_user_orderbook() {
    let mut asks = OrderHeapImpl::new();
    let mut uob = UserOrderbook::new();
    asks.add_order(resting(4, 10, 20, 5)).unwrap();
    uob.add_order(4).unwrap();
    let rec = rust_dex::dex::cancel_order(&mut asks, &mut uob, 4).unwrap();
    assert_eq!(rec.id, 4);
    assert_eq!(rec.sell_quantity, 20);
    assert_eq!(asks.len(), 0);
    assert!(matches!(
        rust_dex::dex::cancel_order(&mut asks, &mut uob, 4),
        Err(ErrorCode::OrderNotFound)
    ));
}

#[test]
fn price_improvement_matches_better_ask() {
    // A resting ask at a better (cheaper) price than the bid still matches.
    let mut bids = OrderHeapImpl::new();
    let mut asks = OrderHeapImpl::new();
    let mut uob = UserOrderbook::new();
    asks.add_order(resting(1, 40, 100, 5)).unwrap();
    let engine = MatchingEngine::new(user(10), user(11));
    let req = request(2, 100, 50, 7, OrderType::Limit, OrderSide::Buy);
    let result = engine.process_order(&mut bids, &mut asks, &mut uob, req);
    assert!(result.len() >= 2);
    assert!(matches!(result[1], Ok(OrderSuccess::Filled { .. })));
}

#[test]
fn deep_book_is_walked_best_first() {
    // Three resting asks; a large crossing bid consumes all of them and
    // rests its remainder.
    let mut bids = OrderHeapImpl::new();
    let mut asks = OrderHeapImpl::new();
    let mut uob = UserOrderbook::new();
    asks.add_order(resting(1, 10, 10, 5)).unwrap();
    asks.add_order(resting(2, 20, 20, 5)).unwrap();
    asks.add_order(resting(3, 30, 30, 6)).unwrap();
    let engine = MatchingEngine::new(user(10), user(11));
    let req = request(4, 100, 100, 7, OrderType::Limit, OrderSide::Buy);
    let result = engine.process_order(&mut bids, &mut asks, &mut uob, req);
    // Acceptance plus two entries per consumed resting order.
    assert_eq!(result.len(), 7);
    assert_eq!(asks.len(), 0);
    assert_eq!(bids.len(), 1);
    let rest = bids.get_order_by_id(4).unwrap();
    assert_eq!(rest.buy_quantity, 40);
    assert_eq!(rest.sell_quantity, 40);
}

#[test]
fn market_remainder_settles_as_rollback() {
    let mut bids = OrderHeapImpl::new();
    let mut asks = OrderHeapImpl::new();
    let mut uob = UserOrderbook::new();
    let mut outbox = EventList::new();
    asks.add_order(resting(1, 40, 40, 5)).unwrap();
    let req = request(2, 100, 100, 7, OrderType::Market, OrderSide::Buy);
    let result = submit_order(&mut bids, &mut asks, &mut uob, &mut outbox, req).unwrap();
    assert_eq!(result.len(), 4);
    assert!(matches!(result[3], Err(OrderFailed::NoMatch { order_id: 2, .. })));
    assert_eq!(outbox.length(), 2);
    // The failure event comes out first and releases exactly the escrow
    // still locked for the order's remainder.
    let eff = drain_settlement(&mut outbox, user(99)).unwrap().unwrap();
    assert!(eff.rollback);
    assert_eq!(eff.oppo_user, user(7));
    assert_eq!(eff.sell_quantity, 60);
    assert_eq!(eff.buy_quantity, 60);
    // Then the partial fill settles against the resting owner.
    let eff = drain_settlement(&mut outbox, user(5)).unwrap().unwrap();
    assert!(!eff.rollback);
    assert_eq!(eff.sell_quantity, 40);
    assert_eq!(eff.buy_quantity, 40);
    assert!(outbox.is_closed());
}

#[test]
fn event_budget_stops_a_long_walk() {
    // Nine crossing asks, a taker big enough to keep going: after seven
    // match steps the acceptance plus fourteen entries exhaust the budget
    // and one budget failure closes the result; the owner's escrow for the
    // remainder comes back through a rollback event.
    let mut bids = OrderHeapImpl::new();
    let mut asks = OrderHeapImpl::new();
    let mut uob = UserOrderbook::new();
    let mut outbox = EventList::new();
    for id in 1..=9u64 {
        asks.add_order(resting(id, 10, 10, 5)).unwrap();
    }
    let req = request(100, 1000, 1000, 7, OrderType::Limit, OrderSide::Buy);
    let result = submit_order(&mut bids, &mut asks, &mut uob, &mut outbox, req).unwrap();
    assert_eq!(result.len(), 16);
    assert!(matches!(result[15], Err(OrderFailed::TooManyEvents { order_id: 100, .. })));
    assert_eq!(asks.len(), 2);
    assert_eq!(bids.len(), 0);
    // Settlement: the rollback first (last in), releasing the remainder.
    let eff = drain_settlement(&mut outbox, user(7)).unwrap().unwrap();
    assert!(eff.rollback);
    assert_eq!(eff.sell_quantity, 930);
    assert_eq!(eff.buy_quantity, 930);
}

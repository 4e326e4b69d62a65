use rust_dex::keys::Pubkey;
use rust_dex::order_heap::OrderHeapImpl;
use rust_dex::order_node::OrderNode;

fn make_order(id: u64, price: u64) -> OrderNode {
    OrderNode::new(id, 1, price, Pubkey::zero(), Pubkey::zero(), Pubkey::zero(), 0)
}

#[test]
fn test_add_and_get_best_order() {
    let mut heap = OrderHeapImpl::new();
    let order1 = make_order(1, 100);
    let order2 = make_order(2, 200);
    heap.add_order(order1).unwrap();
    heap.add_order(order2).unwrap();
    let best = heap.get_best_order().unwrap();
    assert_eq!(best.id, 2);
}

#[test]
fn test_remove_order_root() {
    let mut heap = OrderHeapImpl::new();
    let order1 = make_order(1, 100);
    let order2 = make_order(2, 200);
    let order3 = make_order(3, 150);
    heap.add_order(order1).unwrap();
    heap.add_order(order2).unwrap();
    heap.add_order(order3).unwrap();

    let removed = heap.remove_order(2).unwrap();
    assert_eq!(removed.id, 2);
    let best = heap.get_best_order().unwrap();
    assert_eq!(best.id, 3);
}

#[test]
fn test_remove_order_leaf() {
    let mut heap = OrderHeapImpl::new();
    let order1 = make_order(1, 100);
    let order2 = make_order(2, 200);
    let order3 = make_order(3, 150);
    heap.add_order(order1).unwrap();
    heap.add_order(order2).unwrap();
    heap.add_order(order3).unwrap();

    let removed = heap.remove_order(1).unwrap();
    assert_eq!(removed.id, 1);
    let best = heap.get_best_order().unwrap();
    assert_eq!(best.id, 2);
}

#[test]
fn test_remove_order_middle() {
    let mut heap = OrderHeapImpl::new();
    let order1 = make_order(1, 100);
    let order2 = make_order(2, 200);
    let order3 = make_order(3, 150);
    let order4 = make_order(4, 120);
    heap.add_order(order1).unwrap();
    heap.add_order(order2).unwrap();
    heap.add_order(order3).unwrap();
    heap.add_order(order4).unwrap();

    let removed = heap.remove_order(3).unwrap();
    assert_eq!(removed.id, 3);
    let best = heap.get_best_order().unwrap();
    assert_eq!(best.id, 2);
    assert!(heap.get_order_by_id(1).is_some());
    assert!(heap.get_order_by_id(4).is_some());
}

#[test]
fn test_remove_nonexistent_order() {
    let mut heap = OrderHeapImpl::new();
    let order1 = make_order(1, 100);
    heap.add_order(order1).unwrap();
    let result = heap.remove_order(999);
    assert!(result.is_err());
}

#[test]
fn test_remove_all_orders() {
    let mut heap = OrderHeapImpl::new();
    let order1 = make_order(1, 100);
    let order2 = make_order(2, 200);
    heap.add_order(order1).unwrap();
    heap.add_order(order2).unwrap();

    heap.remove_order(2).unwrap();
    heap.remove_order(1).unwrap();
    assert!(heap.get_best_order().is_none());
    assert_eq!(heap.len(), 0);
}

#[test]
fn test_heap_drains_in_priority_order() {
    // Whatever the insertion order, repeatedly taking the best order walks
    // prices downward, equal prices oldest first.
    let mut heap = OrderHeapImpl::new();
    for (id, price) in [(4u64, 50u64), (1, 100), (3, 100), (2, 200), (5, 10)] {
        heap.add_order(make_order(id, price)).unwrap();
    }
    let mut drained = Vec::new();
    while let Some(best) = heap.get_best_order() {
        let id = best.id;
        heap.remove_order(id).unwrap();
        drained.push(id);
    }
    assert_eq!(drained, vec![2, 1, 3, 4, 5]);
}

#[test]
fn test_full_heap_rejects_and_keeps_state() {
    let mut heap = OrderHeapImpl::new();
    for id in 0..64u64 {
        heap.add_order(make_order(id, id + 1)).unwrap();
    }
    assert_eq!(heap.len(), 64);
    let before_best = heap.get_best_order().unwrap().id;
    let r = heap.add_order(make_order(999, 5000));
    assert!(r.is_err());
    assert_eq!(heap.len(), 64);
    assert_eq!(heap.get_best_order().unwrap().id, before_best);
    assert!(heap.get_order_by_id(999).is_none());
}

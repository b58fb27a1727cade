use orderbook::{LimitOrder, OrderArena};

#[test]
fn insert_gives_consecutive_slots() {
    let mut arena = OrderArena::new(2);
    assert_eq!(arena.len(), 0);
    assert_eq!(arena.insert(7, 100, 3), 0);
    assert_eq!(arena.insert(8, 101, 4), 1);
    assert_eq!(arena.insert(9, 102, 5), 2);
    assert_eq!(arena.len(), 3);
    assert_eq!(arena.order(1), LimitOrder { id: 8, qty: 4, price: 101 });
}

#[test]
fn get_finds_registered_orders() {
    let mut arena = OrderArena::new(0);
    arena.insert(7, 100, 3);
    arena.insert(8, 101, 4);
    assert_eq!(arena.get(8), Some((101, 1)));
    assert_eq!(arena.get(7), Some((100, 0)));
    assert_eq!(arena.get(9), None);
    assert!(arena.delete(&7));
    assert_eq!(arena.get(7), None);
    assert_eq!(arena.get(8), Some((101, 1)));
}

#[test]
fn an_order_without_quantity_is_found_until_it_is_deleted() {
    let mut arena = OrderArena::new(0);
    assert_eq!(arena.get(7), None);
    assert_eq!(arena.insert(7, 100, 0), 0);
    assert_eq!(arena.get(7), Some((100, 0)));
    assert_eq!(arena.order(0), LimitOrder { id: 7, qty: 0, price: 100 });
    assert!(arena.delete(&7));
    assert_eq!(arena.get(7), None);
    assert!(!arena.delete(&7));
}

#[test]
fn delete_retires_once() {
    let mut arena = OrderArena::new(1);
    arena.insert(7, 100, 3);
    assert!(arena.delete(&7));
    assert!(!arena.delete(&7));
    assert!(!arena.delete(&8));
    assert_eq!(arena.len(), 1);
    assert_eq!(arena.order(0), LimitOrder { id: 7, qty: 0, price: 100 });
}

#[test]
fn a_slot_is_taken_again_by_its_id() {
    let mut arena = OrderArena::new(1);
    arena.insert(7, 100, 3);
    arena.insert(8, 101, 4);
    arena.delete(&7);
    assert_eq!(arena.insert(7, 105, 9), 0);
    assert_eq!(arena.len(), 2);
    assert_eq!(arena.get(7), Some((105, 0)));
    assert_eq!(arena.get(8), Some((101, 1)));
    assert_eq!(arena.order(0), LimitOrder { id: 7, qty: 9, price: 105 });
    assert_eq!(arena.order(1), LimitOrder { id: 8, qty: 4, price: 101 });
}

#[test]
fn take_reduces_the_quantity() {
    let mut arena = OrderArena::new(1);
    arena.insert(7, 100, 3);
    arena.insert(8, 101, 4);
    arena.take(1, 3);
    assert_eq!(arena.order(1), LimitOrder { id: 8, qty: 1, price: 101 });
    assert_eq!(arena.order(0), LimitOrder { id: 7, qty: 3, price: 100 });
    arena.take(1, 1);
    assert_eq!(arena.order(1), LimitOrder { id: 8, qty: 0, price: 101 });
    assert_eq!(arena.get(8), Some((101, 1)));
    assert!(arena.delete(&8));
    assert_eq!(arena.get(8), None);
}

#[test]
fn a_large_capacity_hint_is_accepted() {
    let arena = OrderArena::new(usize::MAX);
    assert_eq!(arena.len(), 0);
}

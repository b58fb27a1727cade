use orderbook::{
    BookLevel, FillMetadata, OrderBook, OrderEvent, OrderType, Side, Trade,
};

fn fill(taker: u128, maker: u128, qty: u64, price: u64, side: Side, total: bool) -> FillMetadata {
    FillMetadata { order_1: taker, order_2: maker, qty, price, taker_side: side, total_fill: total }
}

fn limit(id: u128, side: Side, qty: u64, price: u64) -> OrderType {
    OrderType::Limit { id, side, qty, price }
}

fn market(id: u128, side: Side, qty: u64) -> OrderType {
    OrderType::Market { id, side, qty }
}

fn fills_of(event: &OrderEvent) -> Vec<FillMetadata> {
    match event {
        OrderEvent::PartiallyFilled { fills, .. } => fills.clone(),
        OrderEvent::Filled { fills, .. } => fills.clone(),
        _ => Vec::new(),
    }
}

#[test]
fn market_into_empty_book() {
    let mut book = OrderBook::default();
    let event = book.execute(market(1, Side::Bid, 1));
    assert_eq!(event, OrderEvent::Unfilled { id: 1 });
    assert_eq!(book.best_bid(), None);
    assert_eq!(book.best_ask(), None);
    assert_eq!(book.spread(), None);
    assert_eq!(book.last_trade(), None);
    assert_eq!(book.traded_volume(), 0);
}

#[test]
fn limit_rests() {
    let mut book = OrderBook::default();
    let event = book.execute(limit(2, Side::Ask, 3, 120));
    assert_eq!(event, OrderEvent::Placed { id: 2 });
    assert_eq!(book.best_ask(), Some(120));
    assert_eq!(book.best_bid(), None);
    assert_eq!(book.depth(5).asks, vec![BookLevel { price: 120, qty: 3 }]);
    assert!(book.depth(5).bids.is_empty());
    assert_eq!(book.depth(5).levels, 5);
}

#[test]
fn market_takes_partial() {
    let mut book = OrderBook::default();
    book.execute(limit(2, Side::Ask, 3, 120));
    let event = book.execute(market(3, Side::Bid, 4));
    assert_eq!(
        event,
        OrderEvent::PartiallyFilled {
            id: 3,
            filled_qty: 3,
            fills: vec![fill(3, 2, 3, 120, Side::Bid, true)],
        }
    );
    assert_eq!(book.best_ask(), None);
    assert_eq!(book.best_bid(), None);
    assert!(book.depth(5).asks.is_empty());
    assert!(book.depth(5).bids.is_empty());
}

#[test]
fn limit_crosses_then_rests() {
    let mut book = OrderBook::default();
    assert_eq!(book.execute(limit(10, Side::Ask, 5, 100)), OrderEvent::Placed { id: 10 });
    assert_eq!(book.execute(limit(11, Side::Ask, 5, 101)), OrderEvent::Placed { id: 11 });
    let event = book.execute(limit(12, Side::Bid, 7, 100));
    assert_eq!(
        event,
        OrderEvent::PartiallyFilled {
            id: 12,
            filled_qty: 5,
            fills: vec![fill(12, 10, 5, 100, Side::Bid, true)],
        }
    );
    assert_eq!(book.best_bid(), Some(100));
    assert_eq!(book.best_ask(), Some(101));
    assert_eq!(book.spread(), Some(1));
    assert_eq!(book.depth(5).bids, vec![BookLevel { price: 100, qty: 2 }]);
    assert_eq!(book.depth(5).asks, vec![BookLevel { price: 101, qty: 5 }]);
}

#[test]
fn fifo_at_level() {
    let mut book = OrderBook::default();
    book.execute(limit(20, Side::Bid, 2, 50));
    book.execute(limit(21, Side::Bid, 2, 50));
    let event = book.execute(market(22, Side::Ask, 3));
    assert_eq!(
        event,
        OrderEvent::Filled {
            id: 22,
            filled_qty: 3,
            fills: vec![
                fill(22, 20, 2, 50, Side::Ask, true),
                fill(22, 21, 1, 50, Side::Ask, false),
            ],
        }
    );
    assert_eq!(book.depth(1).bids, vec![BookLevel { price: 50, qty: 1 }]);
}

#[test]
fn cancel_removes_level() {
    let mut book = OrderBook::default();
    book.execute(limit(2, Side::Ask, 3, 120));
    let event = book.execute(OrderType::Cancel { id: 2 });
    assert_eq!(event, OrderEvent::Canceled { id: 2 });
    assert_eq!(book.best_ask(), None);
    assert!(book.depth(5).asks.is_empty());
}

#[test]
fn cancel_twice_changes_nothing_more() {
    let mut book = OrderBook::default();
    book.execute(limit(1, Side::Ask, 3, 120));
    book.execute(limit(2, Side::Ask, 4, 121));
    book.execute(limit(3, Side::Bid, 4, 90));
    assert_eq!(book.execute(OrderType::Cancel { id: 1 }), OrderEvent::Canceled { id: 1 });
    let depth = book.depth(10);
    let quotes = (book.best_bid(), book.best_ask());
    assert_eq!(book.execute(OrderType::Cancel { id: 1 }), OrderEvent::Canceled { id: 1 });
    assert_eq!(book.depth(10), depth);
    assert_eq!((book.best_bid(), book.best_ask()), quotes);
    assert_eq!(quotes, (Some(90), Some(121)));
}

#[test]
fn cancel_of_unknown_order() {
    let mut book = OrderBook::default();
    book.execute(limit(1, Side::Bid, 3, 10));
    assert_eq!(book.execute(OrderType::Cancel { id: 99 }), OrderEvent::Canceled { id: 99 });
    assert_eq!(book.depth(3).bids, vec![BookLevel { price: 10, qty: 3 }]);
}

#[test]
fn cancel_in_the_middle_of_a_level_keeps_the_order_of_the_rest() {
    let mut book = OrderBook::default();
    book.execute(limit(1, Side::Ask, 1, 10));
    book.execute(limit(2, Side::Ask, 2, 10));
    book.execute(limit(3, Side::Ask, 3, 10));
    book.execute(OrderType::Cancel { id: 2 });
    assert_eq!(book.depth(1).asks, vec![BookLevel { price: 10, qty: 4 }]);
    let event = book.execute(market(4, Side::Bid, 4));
    assert_eq!(
        fills_of(&event),
        vec![fill(4, 1, 1, 10, Side::Bid, true), fill(4, 3, 3, 10, Side::Bid, true)]
    );
}

#[test]
fn zero_quantity_orders_do_nothing() {
    let mut book = OrderBook::default();
    book.execute(limit(1, Side::Ask, 3, 120));
    assert_eq!(book.execute(market(2, Side::Bid, 0)), OrderEvent::Unfilled { id: 2 });
    assert_eq!(book.execute(limit(3, Side::Bid, 0, 130)), OrderEvent::Placed { id: 3 });
    assert_eq!(book.depth(5).asks, vec![BookLevel { price: 120, qty: 3 }]);
    assert!(book.depth(5).bids.is_empty());
    assert_eq!(book.best_bid(), None);
}

#[test]
fn limit_stops_at_its_price() {
    let mut book = OrderBook::default();
    book.execute(limit(1, Side::Ask, 2, 100));
    book.execute(limit(2, Side::Ask, 2, 101));
    book.execute(limit(3, Side::Ask, 2, 102));
    let event = book.execute(limit(4, Side::Bid, 10, 101));
    assert_eq!(
        event,
        OrderEvent::PartiallyFilled {
            id: 4,
            filled_qty: 4,
            fills: vec![fill(4, 1, 2, 100, Side::Bid, true), fill(4, 2, 2, 101, Side::Bid, true)],
        }
    );
    assert_eq!(book.best_bid(), Some(101));
    assert_eq!(book.best_ask(), Some(102));
    assert_eq!(book.depth(5).bids, vec![BookLevel { price: 101, qty: 6 }]);
}

#[test]
fn sell_limit_crosses_bids_from_the_top() {
    let mut book = OrderBook::default();
    book.execute(limit(1, Side::Bid, 2, 100));
    book.execute(limit(2, Side::Bid, 2, 99));
    book.execute(limit(3, Side::Bid, 2, 98));
    let event = book.execute(limit(4, Side::Ask, 3, 99));
    assert_eq!(
        event,
        OrderEvent::Filled {
            id: 4,
            filled_qty: 3,
            fills: vec![fill(4, 1, 2, 100, Side::Ask, true), fill(4, 2, 1, 99, Side::Ask, false)],
        }
    );
    assert_eq!(book.best_bid(), Some(99));
    assert_eq!(book.best_ask(), None);
    assert_eq!(
        book.depth(5).bids,
        vec![BookLevel { price: 99, qty: 1 }, BookLevel { price: 98, qty: 2 }]
    );
}

#[test]
fn market_fills_completely() {
    let mut book = OrderBook::default();
    book.execute(limit(1, Side::Ask, 5, 100));
    let event = book.execute(market(2, Side::Bid, 5));
    assert_eq!(
        event,
        OrderEvent::Filled {
            id: 2,
            filled_qty: 5,
            fills: vec![fill(2, 1, 5, 100, Side::Bid, true)],
        }
    );
    assert_eq!(book.best_ask(), None);
}

#[test]
fn trade_figures_follow_the_fills() {
    let mut book = OrderBook::default();
    book.execute(limit(1, Side::Ask, 1, 100));
    book.execute(limit(2, Side::Ask, 2, 103));
    assert_eq!(book.last_trade(), None);
    book.execute(market(3, Side::Bid, 3));
    // (100 * 1 + 103 * 2) / 3 = 102
    assert_eq!(
        book.last_trade(),
        Some(Trade { total_qty: 3, avg_price: 102, last_price: 103, last_qty: 2 })
    );
    assert_eq!(book.traded_volume(), 3);
    book.execute(limit(4, Side::Bid, 5, 50));
    assert_eq!(book.traded_volume(), 3);
    book.execute(market(5, Side::Ask, 2));
    assert_eq!(
        book.last_trade(),
        Some(Trade { total_qty: 2, avg_price: 50, last_price: 50, last_qty: 2 })
    );
    assert_eq!(book.traded_volume(), 5);
}

#[test]
fn average_price_is_rounded_down() {
    let mut book = OrderBook::default();
    book.execute(limit(1, Side::Ask, 1, 100));
    book.execute(limit(2, Side::Ask, 1, 101));
    book.execute(market(3, Side::Bid, 2));
    assert_eq!(book.last_trade().unwrap().avg_price, 100);
}

#[test]
fn volume_is_the_sum_of_all_fills() {
    let mut book = OrderBook::default();
    let orders = vec![
        limit(1, Side::Ask, 5, 100),
        limit(2, Side::Ask, 7, 101),
        limit(3, Side::Bid, 6, 100),
        market(4, Side::Bid, 3),
        limit(5, Side::Ask, 9, 99),
        OrderType::Cancel { id: 2 },
        market(6, Side::Bid, 20),
        market(7, Side::Ask, 1),
    ];
    let mut total: u128 = 0;
    for order in orders {
        let event = book.execute(order);
        for fill in fills_of(&event) {
            total += fill.qty as u128;
        }
        if let (Some(bid), Some(ask)) = (book.best_bid(), book.best_ask()) {
            assert!(bid < ask);
        }
    }
    assert_eq!(book.traded_volume(), total);
    assert_eq!(total, 5 + 3 + 1 + 8);
}

#[test]
fn fills_name_the_taker_and_its_side() {
    let mut book = OrderBook::default();
    book.execute(limit(1, Side::Ask, 5, 100));
    book.execute(limit(2, Side::Ask, 5, 101));
    let event = book.execute(limit(3, Side::Bid, 8, 101));
    let fills = fills_of(&event);
    assert_eq!(fills.len(), 2);
    for fill in fills {
        assert_eq!(fill.taker_side, Side::Bid);
        assert_eq!(fill.order_1, 3);
    }
    book.execute(limit(4, Side::Bid, 5, 90));
    let event = book.execute(market(5, Side::Ask, 1));
    for fill in fills_of(&event) {
        assert_eq!(fill.taker_side, Side::Ask);
        assert_eq!(fill.order_1, 5);
    }
}

#[test]
fn filled_and_resting_add_up_to_the_order() {
    let mut book = OrderBook::default();
    book.execute(limit(1, Side::Ask, 4, 100));
    let event = book.execute(limit(2, Side::Bid, 10, 100));
    match event {
        OrderEvent::PartiallyFilled { filled_qty, fills, .. } => {
            assert_eq!(filled_qty, 4);
            assert_eq!(fills.iter().map(|f| f.qty).sum::<u64>(), 4);
        },
        other => panic!("unexpected event {:?}", other),
    }
    assert_eq!(book.depth(1).bids, vec![BookLevel { price: 100, qty: 6 }]);
    let event = book.execute(market(3, Side::Bid, 10));
    assert_eq!(event, OrderEvent::Unfilled { id: 3 });
    assert_eq!(book.depth(1).bids, vec![BookLevel { price: 100, qty: 6 }]);
}

#[test]
fn depth_is_ordered_and_bounded() {
    let mut book = OrderBook::default();
    for (i, price) in [105u64, 101, 103, 102, 104].iter().enumerate() {
        book.execute(limit(i as u128, Side::Ask, 1 + i as u64, *price));
    }
    for (i, price) in [95u64, 99, 97, 98, 96].iter().enumerate() {
        book.execute(limit(10 + i as u128, Side::Bid, 1 + i as u64, *price));
    }
    book.execute(limit(20, Side::Ask, 10, 101));
    let depth = book.depth(3);
    assert_eq!(
        depth.asks,
        vec![
            BookLevel { price: 101, qty: 12 },
            BookLevel { price: 102, qty: 4 },
            BookLevel { price: 103, qty: 3 },
        ]
    );
    assert_eq!(
        depth.bids,
        vec![
            BookLevel { price: 99, qty: 2 },
            BookLevel { price: 98, qty: 4 },
            BookLevel { price: 97, qty: 3 },
        ]
    );
    assert_eq!(book.depth(0).asks, Vec::<BookLevel>::new());
    assert_eq!(book.depth(100).asks.len(), 5);
    assert_eq!(book.depth(100).bids.len(), 5);
    assert_eq!(book.best_ask(), Some(101));
    assert_eq!(book.best_bid(), Some(99));
    assert_eq!(book.spread(), Some(2));
}

#[test]
fn level_quantity_may_exceed_one_order() {
    let mut book = OrderBook::default();
    book.execute(limit(1, Side::Ask, u64::MAX, 7));
    book.execute(limit(2, Side::Ask, u64::MAX, 7));
    assert_eq!(book.depth(1).asks, vec![BookLevel { price: 7, qty: 2 * (u64::MAX as u128) }]);
}

#[test]
fn resting_again_under_the_same_id_replaces_the_order() {
    let mut book = OrderBook::default();
    book.execute(limit(1, Side::Ask, 3, 120));
    assert_eq!(book.execute(limit(1, Side::Ask, 5, 125)), OrderEvent::Placed { id: 1 });
    assert_eq!(book.depth(5).asks, vec![BookLevel { price: 125, qty: 5 }]);
    assert_eq!(book.best_ask(), Some(125));
    assert_eq!(book.execute(limit(1, Side::Bid, 2, 100)), OrderEvent::Placed { id: 1 });
    assert!(book.depth(5).asks.is_empty());
    assert_eq!(book.depth(5).bids, vec![BookLevel { price: 100, qty: 2 }]);
}

#[test]
fn a_filled_id_may_rest_again() {
    let mut book = OrderBook::default();
    book.execute(limit(1, Side::Ask, 3, 120));
    book.execute(market(2, Side::Bid, 3));
    assert_eq!(book.execute(limit(1, Side::Bid, 4, 110)), OrderEvent::Placed { id: 1 });
    assert_eq!(book.depth(5).bids, vec![BookLevel { price: 110, qty: 4 }]);
    assert_eq!(book.execute(OrderType::Cancel { id: 1 }), OrderEvent::Canceled { id: 1 });
    assert_eq!(book.best_bid(), None);
}

#[test]
fn cancel_of_a_filled_order_changes_nothing() {
    let mut book = OrderBook::default();
    book.execute(limit(1, Side::Ask, 3, 120));
    book.execute(limit(2, Side::Ask, 4, 121));
    book.execute(market(3, Side::Bid, 3));
    let depth = book.depth(5);
    assert_eq!(book.execute(OrderType::Cancel { id: 1 }), OrderEvent::Canceled { id: 1 });
    assert_eq!(book.depth(5), depth);
    assert_eq!(book.best_ask(), Some(121));
    assert_eq!(book.traded_volume(), 3);
}

#[test]
fn every_level_of_a_depth_holds_quantity() {
    let mut book = OrderBook::default();
    book.execute(limit(1, Side::Ask, 3, 120));
    book.execute(limit(2, Side::Ask, 4, 121));
    book.execute(limit(3, Side::Bid, 5, 100));
    book.execute(market(4, Side::Bid, 3));
    book.execute(OrderType::Cancel { id: 3 });
    let depth = book.depth(5);
    assert_eq!(depth.asks, vec![BookLevel { price: 121, qty: 4 }]);
    assert!(depth.bids.is_empty());
    assert!(depth.asks.iter().all(|level| level.qty > 0));
}

#[test]
fn get_asks_lists_the_queues_by_price() {
    let mut book = OrderBook::new(4, 4);
    book.execute(limit(1, Side::Ask, 3, 120));
    book.execute(limit(2, Side::Ask, 3, 119));
    book.execute(limit(3, Side::Ask, 3, 120));
    let asks = book.get_asks();
    assert_eq!(asks.keys().copied().collect::<Vec<u64>>(), vec![119, 120]);
    assert_eq!(asks[&120].len(), 2);
    assert_eq!(asks[&119].len(), 1);
}

#[test]
fn events_have_status_names() {
    assert_eq!(OrderEvent::Unfilled { id: 1 }.status(), "Unfilled");
    assert_eq!(OrderEvent::Placed { id: 1 }.status(), "Placed");
    assert_eq!(OrderEvent::Canceled { id: 1 }.status(), "Canceled");
    let partial = OrderEvent::PartiallyFilled { id: 1, filled_qty: 0, fills: Vec::new() };
    assert_eq!(partial.status(), "PartiallyFilled");
    let filled = OrderEvent::Filled { id: 1, filled_qty: 0, fills: Vec::new() };
    assert_eq!(filled.status(), "Filled");
}

#[test]
fn side_negation_flips() {
    assert_eq!(!Side::Bid, Side::Ask);
    assert_eq!(!Side::Ask, Side::Bid);
}

use orderbook::simulator::generator::{order_chunks, Action, Chunk, ConfigError, Samples};
use orderbook::{
    convert_to_order, EventType, Order, OrderExecution, OrderGenerator, OrderKind, OrderSide,
    OrderSimulation, OrderType, Side,
};

fn simulation(n_traders: u64, pct_limit_orders: u64) -> OrderSimulation {
    OrderSimulation::new(
        100,
        n_traders,
        4,
        10_000,
        200,
        2,
        3,
        9,
        10_000,
        0,
        pct_limit_orders,
        "AAPL".to_string(),
    )
    .unwrap()
}

fn order(event: EventType, kind: OrderKind, side: OrderSide) -> Order {
    Order {
        id: 1,
        order_id: 2,
        trader: 3,
        event,
        kind,
        side,
        price: 120,
        qty: 7,
        instrument: "AAPL".to_string(),
        sequence: 9,
        time: 11,
    }
}

#[test]
fn new_order() {
    let mut generator = simulation(3, 75).into_generator();
    let order = generator.new_order(2, OrderKind::Limit, OrderSide::Sell, 120, 7, 41);
    assert_eq!(order.trader, 2);
    assert_eq!(order.event, EventType::New);
    assert_eq!(order.kind, OrderKind::Limit);
    assert_eq!(order.side, OrderSide::Sell);
    assert_eq!(order.price, 120);
    assert_eq!(order.qty, 7);
    assert_eq!(order.instrument, "AAPL");
    assert_eq!(order.sequence, 41);
    assert_ne!(order.id, order.order_id);
    assert_eq!(generator.limit_orders(2), vec![order.id]);
    assert!(generator.limit_orders(0).is_empty());
}

#[test]
fn market_orders_are_not_limit_orders() {
    let mut generator = simulation(1, 75).into_generator();
    generator.new_order(0, OrderKind::Market, OrderSide::Buy, 100, 1, 0);
    assert!(generator.limit_orders(0).is_empty());
}

#[test]
fn cancel_takes_the_order_out() {
    let mut generator = simulation(2, 75).into_generator();
    let placed = generator.new_order(1, OrderKind::Limit, OrderSide::Buy, 120, 7, 0);
    let event = generator.cancel_order(1, placed.id, 5);
    assert_eq!(event.event, EventType::Cancel);
    assert_eq!(event.order_id, placed.order_id);
    assert_ne!(event.id, placed.id);
    assert_eq!(event.sequence, 5);
    assert_eq!(event.trader, 1);
    assert_eq!((event.price, event.qty), (120, 7));
    assert_eq!(event.instrument, "AAPL");
    assert!(generator.limit_orders(1).is_empty());
}

#[test]
fn update_changes_price_or_quantity() {
    let mut generator = simulation(2, 75).into_generator();
    let placed = generator.new_order(0, OrderKind::Limit, OrderSide::Buy, 120, 7, 0);
    let event = generator.update_order(0, placed.id, true, 1, 130, 99);
    assert_eq!(event.event, EventType::Update);
    assert_eq!((event.price, event.qty), (130, 7));
    assert_eq!(event.order_id, placed.order_id);
    assert_eq!(event.sequence, 1);
    let event = generator.update_order(0, placed.id, false, 2, 140, 99);
    assert_eq!((event.price, event.qty), (130, 99));
    assert_eq!(generator.limit_orders(0), vec![placed.id]);
}

#[test]
fn perform_follows_the_action() {
    let mut generator = simulation(1, 75).into_generator();
    let placed =
        generator.perform(0, Action::New, OrderKind::Limit, OrderSide::Sell, 120, 7, 0);
    assert_eq!(placed.event, EventType::New);
    let changed = generator.perform(
        0,
        Action::Update { key: placed.id, price: false },
        OrderKind::Market,
        OrderSide::Buy,
        1,
        5,
        1,
    );
    assert_eq!(changed.event, EventType::Update);
    assert_eq!((changed.price, changed.qty, changed.kind), (120, 5, OrderKind::Limit));
    let gone = generator.perform(
        0,
        Action::Cancel { key: placed.id },
        OrderKind::Market,
        OrderSide::Buy,
        1,
        1,
        2,
    );
    assert_eq!(gone.event, EventType::Cancel);
    assert_eq!((gone.price, gone.qty, gone.side), (120, 5, OrderSide::Sell));
    assert!(generator.limit_orders(0).is_empty());
}

#[test]
fn generated_events_name_instrument_sequence_and_trader() {
    let mut generator = simulation(5, 75).into_generator();
    for sequence in 0..200u64 {
        let samples = Samples { price: 10_100 + sequence, qty: 3 + sequence, market_qty: 1 };
        let (event, latency) = generator.gen_order(sequence, samples);
        assert_eq!(event.instrument, "AAPL");
        assert_eq!(event.sequence, sequence);
        assert!(event.trader < 5);
        assert!((3..9).contains(&latency));
        if event.event == EventType::New {
            match event.kind {
                OrderKind::Market => assert_eq!((event.price, event.qty), (10_000, 1)),
                OrderKind::Limit => {
                    assert_eq!((event.price, event.qty), (10_100 + sequence, 3 + sequence))
                },
            }
        } else {
            assert_eq!(event.kind, OrderKind::Limit);
        }
    }
}

#[test]
fn the_first_event_of_a_trader_is_a_new_order() {
    let mut generator = simulation(1, 75).into_generator();
    let (event, _) = generator.gen_order(0, Samples { price: 10_100, qty: 3, market_qty: 1 });
    assert_eq!(event.event, EventType::New);
    assert_eq!(event.trader, 0);
}

#[test]
fn share_of_limit_orders_decides_the_kind() {
    let none = simulation(1, 0).into_generator();
    let all = simulation(1, 100).into_generator();
    for _ in 0..50 {
        assert_eq!(none.get_kind(), OrderKind::Market);
        assert_eq!(all.get_kind(), OrderKind::Limit);
    }
    let some = simulation(1, 75).into_generator();
    assert_eq!(some.kind_of_draw(74), OrderKind::Limit);
    assert_eq!(some.kind_of_draw(75), OrderKind::Market);
    assert_eq!(some.kind_of_draw(0), OrderKind::Limit);
    let nearly_all = simulation(1, 99).into_generator();
    assert_eq!(nearly_all.kind_of_draw(98), OrderKind::Limit);
    assert_eq!(nearly_all.kind_of_draw(99), OrderKind::Market);
}

#[test]
fn price_of_a_market_order_is_the_base_price() {
    let generator = simulation(1, 75).into_generator();
    assert_eq!(generator.get_price(OrderKind::Market, 12_345), 10_000);
    assert_eq!(generator.get_price(OrderKind::Limit, 12_345), 12_345);
}

#[test]
fn side_follows_the_draw() {
    assert_eq!(OrderGenerator::side_of_draw(0), OrderSide::Buy);
    assert_eq!(OrderGenerator::side_of_draw(1), OrderSide::Sell);
}

#[test]
fn quantity_follows_the_kind() {
    let generator = simulation(1, 75).into_generator();
    let samples = Samples { price: 1, qty: 40, market_qty: 7 };
    assert_eq!(generator.get_qty(OrderKind::Market, samples), 7);
    assert_eq!(generator.get_qty(OrderKind::Limit, samples), 40);
}

#[test]
fn settings_are_kept() {
    let generator = simulation(2, 75).into_generator();
    assert_eq!(generator.price(), 10_000);
    assert_eq!(generator.price_dev(), 200);
    assert_eq!(generator.price_decimals(), 2);
    assert_eq!(generator.qty_max(), 10_000);
    assert_eq!(generator.qty_decimals(), 0);
    assert_eq!(generator.max_orders(), 100);
    assert_eq!(generator.n_tasks(), 4);
    assert_eq!(generator.n_traders(), 2);
}

#[test]
fn latency_without_a_range_is_the_lower_bound() {
    let generator =
        OrderSimulation::new(1, 1, 1, 100, 1, 2, 4, 4, 10, 0, 50, "X".to_string())
            .unwrap()
            .into_generator();
    assert_eq!(generator.get_latency(), 4);
}

#[test]
fn configuration_is_checked() {
    let made = OrderSimulation::new(1, 1, 1, 100, 1, 2, 5, 4, 10, 0, 50, "X".to_string());
    assert_eq!(made.err(), Some(ConfigError::LatencyRange));
    let made = OrderSimulation::new(1, 1, 1, 100, 101, 2, 4, 5, 10, 0, 50, "X".to_string());
    assert_eq!(made.err(), Some(ConfigError::PriceBelowDeviation));
    let made = OrderSimulation::new(1, 1, 1, 100, 101, 2, 5, 4, 10, 0, 50, "X".to_string());
    assert_eq!(made.err(), Some(ConfigError::LatencyRange));
    let made = OrderSimulation::new(1, 7, 1, 100, 100, 2, 4, 4, 10, 0, 50, "X".to_string());
    assert_eq!(made.unwrap().generator().n_traders(), 7);
    assert_eq!(
        ConfigError::LatencyRange.message(),
        "Max latency has to be greater than latency_min"
    );
    assert_eq!(
        ConfigError::PriceBelowDeviation.message(),
        "Price has to be greater than price_dev"
    );
}

#[test]
fn default_simulation() {
    let simulation = OrderSimulation::default();
    assert_eq!(simulation.generator().n_traders(), 10);
    let chunks = simulation.chunks();
    assert_eq!(chunks.len(), 10);
    assert_eq!(chunks[0], Chunk { start: 0, end: 100 });
    assert_eq!(chunks[9], Chunk { start: 900, end: 1000 });
}

#[test]
fn chunks_cover_every_sequence_number() {
    assert_eq!(
        order_chunks(10, 3),
        vec![
            Chunk { start: 0, end: 3 },
            Chunk { start: 3, end: 6 },
            Chunk { start: 6, end: 10 },
        ]
    );
    assert_eq!(order_chunks(10, 1), vec![Chunk { start: 0, end: 10 }]);
    assert_eq!(order_chunks(10, 0), vec![Chunk { start: 0, end: 10 }]);
    assert_eq!(
        order_chunks(2, 3),
        vec![
            Chunk { start: 0, end: 0 },
            Chunk { start: 0, end: 0 },
            Chunk { start: 0, end: 2 },
        ]
    );
    assert_eq!(order_chunks(0, 2), vec![Chunk { start: 0, end: 0 }, Chunk { start: 0, end: 0 }]);
    let chunks = order_chunks(u64::MAX, 7);
    assert_eq!(chunks.len(), 7);
    assert_eq!(chunks.iter().map(|c| (c.end - c.start) as u128).sum::<u128>(), u64::MAX as u128);
}

#[test]
fn events_become_instructions() {
    assert_eq!(
        convert_to_order(&order(EventType::New, OrderKind::Market, OrderSide::Buy)),
        OrderType::Market { id: 2, side: Side::Bid, qty: 7 }
    );
    assert_eq!(
        convert_to_order(&order(EventType::New, OrderKind::Limit, OrderSide::Sell)),
        OrderType::Limit { id: 2, side: Side::Ask, qty: 7, price: 120 }
    );
    assert_eq!(
        convert_to_order(&order(EventType::Update, OrderKind::Market, OrderSide::Buy)),
        OrderType::Limit { id: 2, side: Side::Bid, qty: 7, price: 120 }
    );
    assert_eq!(
        convert_to_order(&order(EventType::Cancel, OrderKind::Limit, OrderSide::Sell)),
        OrderType::Cancel { id: 2 }
    );
}

#[test]
fn execution_keeps_the_order_and_adds_the_outcome() {
    let execution = OrderExecution::from((
        1234u128,
        order(EventType::New, OrderKind::Limit, OrderSide::Sell),
        "Placed".to_string(),
    ));
    assert_eq!(
        execution,
        OrderExecution {
            id: 1,
            order_id: 2,
            trader: 3,
            event: EventType::New,
            kind: OrderKind::Limit,
            side: OrderSide::Sell,
            price: 120,
            qty: 7,
            instrument: "AAPL".to_string(),
            sequence: 9,
            time: 11,
            execution_time: 1234,
            status: "Placed".to_string(),
        }
    );
}

#[test]
fn defaults_of_the_event_types() {
    assert_eq!(EventType::default(), EventType::New);
    assert_eq!(OrderKind::default(), OrderKind::Limit);
    assert_eq!(OrderSide::default(), OrderSide::Buy);
    assert_eq!(Order::default().event, EventType::New);
}

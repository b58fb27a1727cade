//! The order generator: a population of traders and the rules by which each
//! next event is made from a handful of random choices.

use crate::simulator::order::{EventType, Order, OrderKind, OrderSide};
use crate::simulator::random::{fresh_id, now_micros, random_in};
use std::collections::HashMap;
use vstd::prelude::*;
use vstd::std_specs::iter::IteratorSpec;

verus! {

/// A trader and the orders it has placed, by the id of the event that placed them.
#[derive(Debug, Clone)]
pub struct Trader {
    id: u64,
    orders: HashMap<u128, Order>,
}

impl Trader {
    /// The trader's number.
    pub closed spec fn number(&self) -> u64 {
        self.id
    }

    /// The orders the trader holds.
    pub closed spec fn holding(&self) -> Map<u128, Order> {
        self.orders@
    }
}

/// Why a configuration is refused.
#[derive(Debug, Clone, Copy, PartialEq, Eq, Structural)]
pub enum ConfigError {
    /// The largest latency is below the smallest.
    LatencyRange,
    /// The price is below its deviation.
    PriceBelowDeviation,
}

impl ConfigError {
    /// The refusal in words.
    pub fn message(&self) -> (text: String)
        ensures
            text@ == match *self {
                ConfigError::LatencyRange => "Max latency has to be greater than latency_min"@,
                ConfigError::PriceBelowDeviation => "Price has to be greater than price_dev"@,
            },
    {
        match self {
            ConfigError::LatencyRange => {
                "Max latency has to be greater than latency_min".to_owned()
            },
            ConfigError::PriceBelowDeviation => "Price has to be greater than price_dev".to_owned(),
        }
    }
}

/// What to do with the trader's next event.
#[derive(Debug, Clone, Copy, PartialEq, Eq, Structural)]
pub enum Action {
    /// Withdraw the order held under `key`.
    Cancel { key: u128 },
    /// Place a new order.
    New,
    /// Change the order held under `key`: its price, or else its quantity.
    Update { key: u128, price: bool },
}

/// The kind of order that the draw `n` of 0 to 99 selects when
/// `pct_limit_orders` in a hundred orders are to be limit orders.
pub open spec fn kind_drawn(n: u64, pct_limit_orders: u64) -> OrderKind {
    if n < pct_limit_orders {
        OrderKind::Limit
    } else {
        OrderKind::Market
    }
}

/// The side that the draw `n` of 0 or 1 selects.
pub open spec fn side_drawn(n: u64) -> OrderSide {
    if n == 0 {
        OrderSide::Buy
    } else {
        OrderSide::Sell
    }
}

/// The price of an order of `kind`: the base price for a market order, the
/// sampled price for a limit order.
pub open spec fn price_for(kind: OrderKind, base: u64, sample: u64) -> u64 {
    match kind {
        OrderKind::Market => base,
        OrderKind::Limit => sample,
    }
}

/// The quantity of an order of `kind`: each kind has a sample of its own.
pub open spec fn qty_for(kind: OrderKind, samples: Samples) -> u64 {
    match kind {
        OrderKind::Market => samples.market_qty,
        OrderKind::Limit => samples.qty,
    }
}

/// What was drawn from the price and quantity distributions for one event.
#[derive(Debug, Clone, Copy, PartialEq, Eq, Structural)]
pub struct Samples {
    /// The price of a limit order.
    pub price: u64,
    /// The quantity of a limit order.
    pub qty: u64,
    /// The quantity of a market order.
    pub market_qty: u64,
}

/// The event that cancels `held`.
pub open spec fn cancel_of(held: Order, event: Order, sequence: u64) -> bool {
    event == (Order {
        id: event.id,
        event: EventType::Cancel,
        sequence,
        time: event.time,
        ..held
    })
}

/// `held` with a new price, or else a new quantity.
pub open spec fn changed(held: Order, to_price: bool, price: u64, qty: u64) -> Order {
    if to_price {
        Order { price, ..held }
    } else {
        Order { qty, ..held }
    }
}

/// The event that announces the change of an order to `now_held`.
pub open spec fn update_of(now_held: Order, event: Order, sequence: u64) -> bool {
    event == (Order {
        id: event.id,
        event: EventType::Update,
        sequence,
        time: event.time,
        ..now_held
    })
}

/// The makings of order events: the traders with what they hold, and the
/// figures that new orders are drawn around.
#[derive(Debug, Clone)]
pub struct OrderGenerator {
    max_orders: u64,
    n_tasks: u64,
    traders: Vec<Trader>,
    price: u64,
    price_dev: u64,
    price_decimals: u32,
    latency_min: u64,
    latency_max: u64,
    qty_max: u64,
    qty_decimals: u32,
    pct_limit_orders: u64,
    instrument: String,
}

impl OrderGenerator {
    /// What each trader holds, by trader number.
    pub closed spec fn holdings(&self) -> Seq<Map<u128, Order>> {
        Seq::new(self.traders@.len(), |i: int| self.traders@[i].orders@)
    }

    /// The instrument that every order names.
    pub closed spec fn instrument(&self) -> String {
        self.instrument
    }

    /// The price of market orders.
    pub closed spec fn base_price(&self) -> u64 {
        self.price
    }

    /// How many orders in a hundred are to be limit orders.
    pub closed spec fn limit_share(&self) -> u64 {
        self.pct_limit_orders
    }

    /// The bounds within which a latency is drawn.
    pub closed spec fn latency_bounds(&self) -> (u64, u64) {
        (self.latency_min, self.latency_max)
    }

    /// The total number of events to make, and the number of tasks to make them.
    pub closed spec fn workload(&self) -> (u64, u64) {
        (self.max_orders, self.n_tasks)
    }

    /// The deviation of limit prices from the base price, and the number of
    /// decimals of a price.
    pub closed spec fn price_spread(&self) -> (u64, u32) {
        (self.price_dev, self.price_decimals)
    }

    /// The quantity that orders stay below, and the number of decimals of a
    /// quantity.
    pub closed spec fn qty_range(&self) -> (u64, u32) {
        (self.qty_max, self.qty_decimals)
    }

    /// Traders are numbered in order, and every order a trader holds is its
    /// own, names the instrument and is held under its event id.
    pub closed spec fn wf(&self) -> bool {
        &&& forall|i: int| 0 <= i < self.traders@.len() ==> (#[trigger] self.traders@[i]).id == i
        &&& forall|i: int, key: u128|
            0 <= i < self.traders@.len() && #[trigger] self.traders@[i].orders@.contains_key(key)
                ==> {
                &&& self.traders@[i].orders@[key].id == key
                &&& self.traders@[i].orders@[key].trader == i
                &&& self.traders@[i].orders@[key].instrument == self.instrument
            }
    }

    /// Every order that a trader holds names the instrument and the trader.
    pub proof fn lemma_held_orders(&self, trader: int, key: u128)
        requires
            self.wf(),
            0 <= trader < self.holdings().len(),
            self.holdings()[trader].contains_key(key),
        ensures
            self.holdings()[trader][key].instrument == self.instrument(),
            self.holdings()[trader][key].trader == trader,
            self.holdings()[trader][key].id == key,
    {
    }

    /// The kind that the draw `n` selects.
    pub fn kind_of_draw(&self, n: u64) -> (kind: OrderKind)
        ensures
            kind == kind_drawn(n, self.limit_share()),
    {
        if n < self.pct_limit_orders {
            OrderKind::Limit
        } else {
            OrderKind::Market
        }
    }

    /// Draws the kind of the next order: a limit order in `pct_limit_orders`
    /// of a hundred draws.
    pub fn get_kind(&self) -> (kind: OrderKind)
        ensures
            self.limit_share() == 0 ==> kind == OrderKind::Market,
            self.limit_share() >= 100 ==> kind == OrderKind::Limit,
    {
        let n = random_in(0, 100);
        self.kind_of_draw(n)
    }

    /// The side that the draw `n` selects.
    pub fn side_of_draw(n: u64) -> (side: OrderSide)
        ensures
            side == side_drawn(n),
    {
        match n {
            0 => OrderSide::Buy,
            _ => OrderSide::Sell,
        }
    }

    /// Draws the side of the next order: either side in one of two draws.
    pub fn get_side(&self) -> OrderSide {
        Self::side_of_draw(random_in(0, 2))
    }

    /// The price of an order of `kind` when `sample` was drawn for it.
    pub fn get_price(&self, kind: OrderKind, sample: u64) -> (price: u64)
        ensures
            price == price_for(kind, self.base_price(), sample),
    {
        match kind {
            OrderKind::Market => self.price,
            OrderKind::Limit => sample,
        }
    }

    /// The quantity of an order of `kind` when `samples` were drawn for it.
    pub fn get_qty(&self, kind: OrderKind, samples: Samples) -> (qty: u64)
        ensures
            qty == qty_for(kind, samples),
    {
        match kind {
            OrderKind::Market => samples.market_qty,
            OrderKind::Limit => samples.qty,
        }
    }

    /// Draws a latency within the configured bounds; the lower bound when
    /// the bounds leave no choice.
    pub fn get_latency(&self) -> (latency: u64)
        ensures
            self.latency_bounds().0 <= latency,
            latency < self.latency_bounds().1 || latency == self.latency_bounds().0,
    {
        if self.latency_min < self.latency_max {
            random_in(self.latency_min, self.latency_max)
        } else {
            self.latency_min
        }
    }

    /// The price of market orders and the centre of limit prices.
    pub fn price(&self) -> (price: u64)
        ensures
            price == self.base_price(),
    {
        self.price
    }

    /// The deviation of limit prices from the base price.
    pub fn price_dev(&self) -> (deviation: u64)
        ensures
            deviation == self.price_spread().0,
    {
        self.price_dev
    }

    /// The number of decimals of a price.
    pub fn price_decimals(&self) -> (decimals: u32)
        ensures
            decimals == self.price_spread().1,
    {
        self.price_decimals
    }

    /// The quantity that orders stay below.
    pub fn qty_max(&self) -> (qty: u64)
        ensures
            qty == self.qty_range().0,
    {
        self.qty_max
    }

    /// The number of decimals of a quantity.
    pub fn qty_decimals(&self) -> (decimals: u32)
        ensures
            decimals == self.qty_range().1,
    {
        self.qty_decimals
    }

    /// The total number of events to make.
    pub fn max_orders(&self) -> (count: u64)
        ensures
            count == self.workload().0,
    {
        self.max_orders
    }

    /// The number of tasks that make the events.
    pub fn n_tasks(&self) -> (count: u64)
        ensures
            count == self.workload().1,
    {
        self.n_tasks
    }

    /// The number of traders.
    pub fn n_traders(&self) -> (n: usize)
        ensures
            n == self.holdings().len(),
    {
        self.traders.len()
    }

    /// The keys under which `trader` holds limit orders, in no particular order.
    pub fn limit_orders(&self, trader: usize) -> (keys: Vec<u128>)
        requires
            trader < self.holdings().len(),
        ensures
            keys@.no_duplicates(),
            forall|key: u128|
                keys@.contains(key) <==> self.holdings()[trader as int].contains_key(key)
                    && self.holdings()[trader as int][key].kind == OrderKind::Limit,
    {
        let orders = &self.traders[trader].orders;
        let ghost all = orders.keys().remaining();
        let mut keys: Vec<u128> = Vec::new();
        for key in it: orders.keys()
            invariant
                it.seq() == all,
                all.no_duplicates(),
                all.unref().to_set() == orders@.dom(),
                keys@.no_duplicates(),
                forall|k: u128|
                    keys@.contains(k) <==> orders@.contains_key(k) && orders@[k].kind
                        == OrderKind::Limit && exists|i: int|
                        0 <= i < it.index() && *(#[trigger] all[i]) == k,
        {
            let ghost before = keys@;
            let ghost at = it.index();
            proof {
                assert(all.unref()[at] == *key);
                assert(all.unref().to_set().contains(*key));
            }
            let limit = match orders.get(key) {
                Some(order) => order.kind == OrderKind::Limit,
                None => false,
            };
            if limit {
                keys.push(*key);
                proof {
                    assert(!before.contains(*key)) by {
                        if before.contains(*key) {
                            let i = choose|i: int| 0 <= i < at && *(#[trigger] all[i]) == *key;
                            assert(all[i] == all[at]);
                        }
                    }
                    assert forall|k: u128| keys@.contains(k) <==> orders@.contains_key(k)
                        && orders@[k].kind == OrderKind::Limit && exists|i: int|
                        0 <= i < at + 1 && *(#[trigger] all[i]) == k by {
                        if keys@.contains(k) {
                            let j = choose|j: int| 0 <= j < keys@.len() && keys@[j] == k;
                            if j < before.len() {
                                assert(before[j] == k);
                                assert(before.contains(k));
                            } else {
                                assert(*all[at] == k);
                            }
                        }
                        if orders@.contains_key(k) && orders@[k].kind == OrderKind::Limit
                            && exists|i: int| 0 <= i < at + 1 && *(#[trigger] all[i]) == k {
                            let i = choose|i: int| 0 <= i < at + 1 && *(#[trigger] all[i]) == k;
                            if i < at {
                                assert(before.contains(k));
                                let j = choose|j: int| 0 <= j < before.len() && before[j] == k;
                                assert(keys@[j] == k);
                            } else {
                                assert(keys@[before.len() as int] == k);
                            }
                        }
                    }
                }
            } else {
                proof {
                    assert forall|k: u128| keys@.contains(k) <==> orders@.contains_key(k)
                        && orders@[k].kind == OrderKind::Limit && exists|i: int|
                        0 <= i < at + 1 && *(#[trigger] all[i]) == k by {
                        if orders@.contains_key(k) && orders@[k].kind == OrderKind::Limit
                            && exists|i: int| 0 <= i < at + 1 && *(#[trigger] all[i]) == k {
                            let i = choose|i: int| 0 <= i < at + 1 && *(#[trigger] all[i]) == k;
                            assert(i < at);
                        }
                    }
                }
            }
        }
        proof {
            assert forall|key: u128|
                orders@.contains_key(key) && orders@[key].kind
                    == OrderKind::Limit implies keys@.contains(key) by {
                assert(all.unref().to_set().contains(key));
                let i = choose|i: int| 0 <= i < all.unref().len() && all.unref()[i] == key;
                assert(*all[i] == key);
            }
        }
        keys
    }

    /// Places a new order for `trader_id` and files it under the trader.
    pub fn new_order(
        &mut self,
        trader_id: u64,
        kind: OrderKind,
        side: OrderSide,
        price: u64,
        qty: u64,
        sequence: u64,
    ) -> (order: Order)
        requires
            old(self).wf(),
            trader_id < old(self).holdings().len(),
        ensures
            final(self).wf(),
            final(self).instrument() == old(self).instrument(),
            order == (Order {
                id: order.id,
                order_id: order.order_id,
                trader: trader_id,
                event: EventType::New,
                kind,
                side,
                price,
                qty,
                instrument: old(self).instrument(),
                sequence,
                time: order.time,
            }),
            final(self).holdings() == old(self).holdings().update(
                trader_id as int,
                old(self).holdings()[trader_id as int].insert(order.id, order),
            ),
    {
        let order = Order::new(
            trader_id,
            kind,
            side,
            price,
            qty,
            self.instrument.clone(),
            sequence,
        );
        let n = self.traders.len();
        assert(trader_id < n);
        self.traders[trader_id as usize].orders.insert(order.id, order.duplicate());
        proof {
            assert(final(self).holdings() =~= old(self).holdings().update(
                trader_id as int,
                old(self).holdings()[trader_id as int].insert(order.id, order),
            ));
        }
        order
    }

    /// Withdraws the order that `trader_id` holds under `key` and makes the
    /// event that says so.
    pub fn cancel_order(&mut self, trader_id: usize, key: u128, sequence: u64) -> (order: Order)
        requires
            old(self).wf(),
            trader_id < old(self).holdings().len(),
            old(self).holdings()[trader_id as int].contains_key(key),
        ensures
            final(self).wf(),
            final(self).instrument() == old(self).instrument(),
            cancel_of(old(self).holdings()[trader_id as int][key], order, sequence),
            final(self).holdings() == old(self).holdings().update(
                trader_id as int,
                old(self).holdings()[trader_id as int].remove(key),
            ),
    {
        let removed = self.traders[trader_id].orders.remove(&key);
        proof {
            assert(final(self).holdings() =~= old(self).holdings().update(
                trader_id as int,
                old(self).holdings()[trader_id as int].remove(key),
            ));
        }
        let mut order = match removed {
            Some(order) => order,
            None => Order::new(0, OrderKind::Limit, OrderSide::Buy, 0, 0, String::new(), 0),
        };
        order.id = fresh_id();
        order.event = EventType::Cancel;
        order.sequence = sequence;
        order.time = now_micros();
        order
    }

    /// Changes the order that `trader_id` holds under `key`, its price when
    /// `to_price` and else its quantity, and makes the event that says so.
    pub fn update_order(
        &mut self,
        trader_id: usize,
        key: u128,
        to_price: bool,
        sequence: u64,
        price: u64,
        qty: u64,
    ) -> (order: Order)
        requires
            old(self).wf(),
            trader_id < old(self).holdings().len(),
            old(self).holdings()[trader_id as int].contains_key(key),
        ensures
            final(self).wf(),
            final(self).instrument() == old(self).instrument(),
            update_of(
                changed(old(self).holdings()[trader_id as int][key], to_price, price, qty),
                order,
                sequence,
            ),
            final(self).holdings() == old(self).holdings().update(
                trader_id as int,
                old(self).holdings()[trader_id as int].insert(
                    key,
                    changed(old(self).holdings()[trader_id as int][key], to_price, price, qty),
                ),
            ),
    {
        let mut order = match self.traders[trader_id].orders.get(&key) {
            Some(held) => held.duplicate(),
            None => Order::new(0, OrderKind::Limit, OrderSide::Buy, 0, 0, String::new(), 0),
        };
        if to_price {
            order.price = price;
        } else {
            order.qty = qty;
        }
        self.traders[trader_id].orders.insert(key, order.duplicate());
        proof {
            assert(final(self).holdings() =~= old(self).holdings().update(
                trader_id as int,
                old(self).holdings()[trader_id as int].insert(
                    key,
                    changed(old(self).holdings()[trader_id as int][key], to_price, price, qty),
                ),
            ));
        }
        order.id = fresh_id();
        order.event = EventType::Update;
        order.sequence = sequence;
        order.time = now_micros();
        order
    }

    /// Makes the event that `action` asks for on behalf of `trader_id`: a
    /// cancellation or a change of an order the trader holds, or a new order
    /// of the given kind, side, price and quantity.
    pub fn perform(
        &mut self,
        trader_id: u64,
        action: Action,
        kind: OrderKind,
        side: OrderSide,
        price: u64,
        qty: u64,
        sequence: u64,
    ) -> (order: Order)
        requires
            old(self).wf(),
            trader_id < old(self).holdings().len(),
            action matches Action::Cancel { key }
                ==> old(self).holdings()[trader_id as int].contains_key(key),
            action matches Action::Update { key, .. }
                ==> old(self).holdings()[trader_id as int].contains_key(key),
        ensures
            final(self).wf(),
            final(self).instrument() == old(self).instrument(),
            order.trader == trader_id,
            order.sequence == sequence,
            order.instrument == old(self).instrument(),
            performed(
                old(self).holdings(),
                final(self).holdings(),
                trader_id as int,
                action,
                order,
                Order {
                    id: order.id,
                    order_id: order.order_id,
                    trader: trader_id,
                    event: EventType::New,
                    kind,
                    side,
                    price,
                    qty,
                    instrument: old(self).instrument(),
                    sequence,
                    time: order.time,
                },
            ),
    {
        let n = self.traders.len();
        assert(trader_id < n);
        match action {
            Action::Cancel { key } => self.cancel_order(trader_id as usize, key, sequence),
            Action::New => self.new_order(trader_id, kind, side, price, qty, sequence),
            Action::Update { key, price: to_price } => self.update_order(
                trader_id as usize,
                key,
                to_price,
                sequence,
                price,
                qty,
            ),
        }
    }

    /// Makes the next event, number `sequence`: for a trader drawn at random,
    /// a new order, or, where the trader holds limit orders, with equal
    /// chances a new order, the cancellation of one of them or a change of
    /// one. A new order or a change takes its price and quantity from
    /// `samples`. Returns the event and a latency.
    pub fn gen_order(&mut self, sequence: u64, samples: Samples) -> (result: (Order, u64))
        requires
            old(self).wf(),
            old(self).holdings().len() > 0,
        ensures
            final(self).wf(),
            final(self).instrument() == old(self).instrument(),
            result.0.trader < old(self).holdings().len(),
            result.0.sequence == sequence,
            result.0.instrument == old(self).instrument(),
            old(self).latency_bounds().0 <= result.1,
            result.1 < old(self).latency_bounds().1 || result.1 == old(self).latency_bounds().0,
            exists|action: Action, kind: OrderKind, side: OrderSide|
                chosen(old(self).holdings()[result.0.trader as int], action)
                    && #[trigger] performed(
                    old(self).holdings(),
                    final(self).holdings(),
                    result.0.trader as int,
                    action,
                    result.0,
                    Order {
                        id: result.0.id,
                        order_id: result.0.order_id,
                        trader: result.0.trader,
                        event: EventType::New,
                        kind,
                        side,
                        price: price_for(kind, old(self).base_price(), samples.price),
                        qty: qty_for(kind, samples),
                        instrument: old(self).instrument(),
                        sequence,
                        time: result.0.time,
                    },
                ),
    {
        let n = self.traders.len();
        let trader_id = random_in(0, n as u64);
        let kind = self.get_kind();
        let side = self.get_side();
        let price = self.get_price(kind, samples.price);
        let qty = self.get_qty(kind, samples);
        let latency = self.get_latency();
        let limit_orders = self.limit_orders(trader_id as usize);
        let held = limit_orders.len();
        let action = if held > 0 {
            let choice = random_in(0, 3);
            if choice == 1 {
                Action::New
            } else {
                let key = limit_orders[random_in(0, held as u64) as usize];
                proof {
                    assert(limit_orders@.contains(key));
                }
                if choice == 0 {
                    Action::Cancel { key }
                } else {
                    Action::Update { key, price: random_in(0, 2) == 0 }
                }
            }
        } else {
            Action::New
        };
        let order = self.perform(trader_id, action, kind, side, price, qty, sequence);
        (order, latency)
    }
}

/// `action` is open to a trader who holds `held`: a new order always, a
/// cancellation or a change only of a limit order that the trader holds.
pub open spec fn chosen(held: Map<u128, Order>, action: Action) -> bool {
    match action {
        Action::New => true,
        Action::Cancel { key } => held.contains_key(key) && held[key].kind == OrderKind::Limit,
        Action::Update { key, .. } => held.contains_key(key) && held[key].kind == OrderKind::Limit,
    }
}

/// `event` is what `action` of `trader` makes of the holdings `before`, and
/// `after` is what it leaves. A new order is `fresh` and is filed under its
/// id; a cancellation takes the order out; a change files the changed order
/// under the same key, with the price or the quantity of `fresh`.
pub open spec fn performed(
    before: Seq<Map<u128, Order>>,
    after: Seq<Map<u128, Order>>,
    trader: int,
    action: Action,
    event: Order,
    fresh: Order,
) -> bool {
    match action {
        Action::New => event == fresh && after == before.update(
            trader,
            before[trader].insert(event.id, event),
        ),
        Action::Cancel { key } => cancel_of(before[trader][key], event, fresh.sequence) && after
            == before.update(trader, before[trader].remove(key)),
        Action::Update { key, price } => {
            let now_held = changed(before[trader][key], price, fresh.price, fresh.qty);
            update_of(now_held, event, fresh.sequence) && after == before.update(
                trader,
                before[trader].insert(key, now_held),
            )
        },
    }
}

/// `count` traders, numbered from 0, who hold nothing.
pub fn generate_traders(n_traders: u64) -> (traders: Vec<Trader>)
    ensures
        traders@.len() == n_traders,
        forall|i: int|
            0 <= i < n_traders ==> (#[trigger] traders@[i]).number() == i && traders@[i].holding()
                == Map::<u128, Order>::empty(),
{
    let mut traders: Vec<Trader> = Vec::new();
    let mut i: u64 = 0;
    while i < n_traders
        invariant
            i <= n_traders,
            traders@.len() == i,
            forall|k: int|
                0 <= k < i ==> (#[trigger] traders@[k]).id == k && traders@[k].orders@ == Map::<
                    u128,
                    Order,
                >::empty(),
        decreases n_traders - i,
    {
        traders.push(Trader { id: i, orders: HashMap::new() });
        i = i + 1;
    }
    traders
}

/// One share of the sequence numbers: from `start` up to, not including, `end`.
#[derive(Debug, Clone, Copy, PartialEq, Eq, Structural)]
pub struct Chunk {
    pub start: u64,
    pub end: u64,
}

/// The number of sequence numbers in `chunks`.
pub open spec fn chunks_len(chunks: Seq<Chunk>) -> int
    decreases chunks.len(),
{
    if chunks.len() == 0 {
        0
    } else {
        chunks_len(chunks.drop_last()) + chunks.last().end - chunks.last().start
    }
}

/// `chunks` divide the numbers below `total` among them, in order and
/// without gaps.
pub open spec fn divides(chunks: Seq<Chunk>, total: u64) -> bool {
    &&& chunks.len() > 0
    &&& chunks[0].start == 0
    &&& chunks.last().end == total
    &&& forall|k: int| 0 <= k < chunks.len() ==> (#[trigger] chunks[k]).start <= chunks[k].end
    &&& forall|k: int|
        0 <= k < chunks.len() - 1 ==> (#[trigger] chunks[k]).end == chunks[k + 1].start
}

/// Divides the sequence numbers below `max_orders` into `n_tasks` chunks of
/// equal length, one after the other; what is left over goes to the last. A
/// count of no tasks is taken as one.
pub fn order_chunks(max_orders: u64, n_tasks: u64) -> (chunks: Vec<Chunk>)
    ensures
        chunks@.len() == if n_tasks == 0 {
            1
        } else {
            n_tasks as int
        },
        divides(chunks@, max_orders),
        chunks_len(chunks@) == max_orders,
        forall|k: int|
            0 <= k < chunks@.len() - 1 ==> (#[trigger] chunks@[k]).end - chunks@[k].start
                == max_orders / (chunks@.len() as u64),
{
    let tasks = if n_tasks == 0 {
        1
    } else {
        n_tasks
    };
    let step = max_orders / tasks;
    let mut chunks: Vec<Chunk> = Vec::new();
    let mut start: u64 = 0;
    let mut k: u64 = 1;
    proof {
        assert(step * tasks <= max_orders) by (nonlinear_arith)
            requires
                step == max_orders / tasks,
                tasks > 0,
        ;
    }
    while k < tasks
        invariant
            1 <= k <= tasks,
            step == max_orders / tasks,
            step * tasks <= max_orders,
            chunks@.len() == k - 1,
            start == (k - 1) * step,
            chunks_len(chunks@) == start,
            forall|i: int| 0 <= i < chunks@.len() ==> (#[trigger] chunks@[i]).start == i * step
                && chunks@[i].end == (i + 1) * step,
        decreases tasks - k,
    {
        proof {
            assert(k * step == (k - 1) * step + step) by (nonlinear_arith);
            assert(k * step <= step * tasks) by (nonlinear_arith)
                requires
                    k <= tasks,
                    step >= 0,
            ;
        }
        let ghost before = chunks@;
        chunks.push(Chunk { start, end: start + step });
        proof {
            assert(chunks@.drop_last() =~= before);
        }
        start = start + step;
        k = k + 1;
    }
    let ghost before = chunks@;
    chunks.push(Chunk { start, end: max_orders });
    proof {
        assert(chunks@.drop_last() =~= before);
        assert(tasks * step <= max_orders) by (nonlinear_arith)
            requires
                step * tasks <= max_orders,
        ;
        assert((tasks - 1) * step <= tasks * step) by (nonlinear_arith)
            requires
                step >= 0,
                tasks >= 1,
        ;
        assert forall|i: int| 0 <= i < chunks@.len() - 1 implies (#[trigger] chunks@[i]).end
            == chunks@[i + 1].start by {
            if i + 1 < chunks@.len() - 1 {
                assert(chunks@[i + 1].start == (i + 1) * step);
            }
        }
        assert forall|i: int| 0 <= i < chunks@.len() implies (#[trigger] chunks@[i]).start
            <= chunks@[i].end by {
            if i < chunks@.len() - 1 {
                assert((i + 1) * step == i * step + step) by (nonlinear_arith);
            }
        }
        assert forall|i: int| 0 <= i < chunks@.len() - 1 implies (#[trigger] chunks@[i]).end
            - chunks@[i].start == step by {
            assert((i + 1) * step == i * step + step) by (nonlinear_arith);
        }
        assert(0 * step == 0) by (nonlinear_arith);
    }
    chunks
}

/// The configured simulation: the generator that the worker tasks start from.
#[derive(Debug, Clone)]
pub struct OrderSimulation {
    generator: OrderGenerator,
}

impl OrderSimulation {
    /// The generator that each task starts from.
    pub closed spec fn spec_generator(&self) -> OrderGenerator {
        self.generator
    }

    /// A simulation of `max_orders` events by `n_traders` traders, made by
    /// `n_tasks` tasks. Prices and quantities are whole numbers of the
    /// smallest unit that their decimals allow; `pct_limit_orders` counts
    /// limit orders in a hundred. Refused when the latency bounds are out of
    /// order or the price is below its deviation.
    pub fn new(
        max_orders: u64,
        n_traders: u64,
        n_tasks: u64,
        price: u64,
        price_dev: u64,
        price_decimals: u32,
        latency_min: u64,
        latency_max: u64,
        qty_max: u64,
        qty_decimals: u32,
        pct_limit_orders: u64,
        instrument: String,
    ) -> (made: Result<Self, ConfigError>)
        ensures
            latency_max < latency_min ==> made == Err::<Self, ConfigError>(
                ConfigError::LatencyRange,
            ),
            latency_max >= latency_min && price < price_dev ==> made == Err::<Self, ConfigError>(
                ConfigError::PriceBelowDeviation,
            ),
            latency_max >= latency_min && price >= price_dev ==> made is Ok && {
                let generator = made->Ok_0.spec_generator();
                &&& generator.wf()
                &&& generator.holdings() == Seq::new(
                    n_traders as nat,
                    |i: int| Map::<u128, Order>::empty(),
                )
                &&& generator.instrument() == instrument
                &&& generator.base_price() == price
                &&& generator.limit_share() == pct_limit_orders
                &&& generator.latency_bounds() == (latency_min, latency_max)
                &&& generator.workload() == (max_orders, n_tasks)
                &&& generator.price_spread() == (price_dev, price_decimals)
                &&& generator.qty_range() == (qty_max, qty_decimals)
            },
    {
        if latency_max < latency_min {
            return Err(ConfigError::LatencyRange);
        }
        if price < price_dev {
            return Err(ConfigError::PriceBelowDeviation);
        }
        let traders = generate_traders(n_traders);
        let generator = OrderGenerator {
            max_orders,
            n_tasks,
            traders,
            price,
            price_dev,
            price_decimals,
            latency_min,
            latency_max,
            qty_max,
            qty_decimals,
            pct_limit_orders,
            instrument,
        };
        proof {
            assert(generator.holdings() =~= Seq::new(
                n_traders as nat,
                |i: int| Map::<u128, Order>::empty(),
            ));
        }
        Ok(Self { generator })
    }

    /// The generator that each task starts from.
    pub fn generator(&self) -> (generator: &OrderGenerator)
        ensures
            *generator == self.spec_generator(),
    {
        &self.generator
    }

    /// The simulation's own generator, for a single task.
    pub fn into_generator(self) -> (generator: OrderGenerator)
        ensures
            generator == self.spec_generator(),
    {
        self.generator
    }

    /// The chunks of sequence numbers, one for each task.
    pub fn chunks(&self) -> (chunks: Vec<Chunk>)
        ensures
            chunks@.len() == if self.spec_generator().workload().1 == 0 {
                1
            } else {
                self.spec_generator().workload().1 as int
            },
            divides(chunks@, self.spec_generator().workload().0),
            chunks_len(chunks@) == self.spec_generator().workload().0,
    {
        order_chunks(self.generator.max_orders, self.generator.n_tasks)
    }
}

impl Default for OrderSimulation {
    /// A small simulation: a thousand events by ten traders in ten tasks, at
    /// a price of 100.00 with a deviation of 2.00, three limit orders in four.
    fn default() -> (made: Self)
        ensures
            made.spec_generator().wf(),
            made.spec_generator().holdings() == Seq::new(10, |i: int| Map::<u128, Order>::empty()),
            made.spec_generator().workload() == (1000u64, 10u64),
            made.spec_generator().base_price() == 10_000,
            made.spec_generator().price_spread() == (200u64, 2u32),
            made.spec_generator().latency_bounds() == (0u64, 1u64),
            made.spec_generator().qty_range() == (10_000u64, 0u32),
            made.spec_generator().limit_share() == 75,
            made.spec_generator().instrument()@ == "AAPL"@,
    {
        match Self::new(1000, 10, 10, 10_000, 200, 2, 0, 1, 10_000, 0, 75, "AAPL".to_owned()) {
            Ok(made) => made,
            Err(_) => unreached(),
        }
    }
}

} // verus!

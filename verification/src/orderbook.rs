//! The order book: price levels that queue resting orders first in first
//! out, the two sides of the book keyed by price, and the matching engine.
use crate::matching::{
    add_to_levels, best_level_fill, best_price, book_after_best, book_ok, cancel_book, crosses,
    fill_book, fill_level, has_id, id_views, insert_book, is_first_position, lemma_best_level_ok,
    lemma_best_price, lemma_cancel_ok, lemma_fill_book_step, lemma_first_position_unique,
    lemma_insert_ok, lemma_remove_keys_append, lemma_sum_qty_nonneg, lemma_sum_qty_push,
    lemma_sum_qty_remove, level_total, levels_after_best, levels_of, opposite, order_views,
    process_book, process_fill, remove_from_levels, total_in_sync, trade_views, with_levels,
    BookModel, LevelModel,
};
use crate::price_map::{
    highest, highest_key, lemma_u64_keys_ordered, lowest, lowest_key, value_mut,
};
use crate::types::{Order, OrderId, OrderModel, Price, Quantity, Side, Trade, TradeModel};
use std::collections::{BTreeMap, HashMap, VecDeque};
use vstd::prelude::*;

verus! {

// ---------------------------------------------------------------------------
// Price levels
// ---------------------------------------------------------------------------

/// The resting orders at one price of one side, oldest first, with the
/// running total of their quantities.
#[derive(Debug, PartialEq)]
pub struct PriceLevel {
    price: Price,
    orders: VecDeque<Order>,
    total_quantity: Quantity,
}

impl View for PriceLevel {
    type V = LevelModel;

    closed spec fn view(&self) -> LevelModel {
        LevelModel {
            price: self.price@,
            orders: order_views(self.orders@),
            total: self.total_quantity@,
        }
    }
}

impl PriceLevel {
    /// An empty level at `price`.
    pub fn new(price: Price) -> (r: PriceLevel)
        ensures
            r@ == (LevelModel { price: price@, orders: seq![], total: 0 }),
            total_in_sync(r@),
    {
        let r = PriceLevel { price, orders: VecDeque::new(), total_quantity: Quantity::new(0) };
        assert(order_views(r.orders@) =~= Seq::<OrderModel>::empty());
        r
    }

    /// Appends `order` to the back of the queue and adds its quantity to the
    /// running total.
    pub fn add_order_to_price_level(&mut self, order: Order)
        requires
            old(self)@.total + order@.quantity <= u64::MAX,
        ensures
            final(self)@ == (LevelModel {
                orders: old(self)@.orders.push(order@),
                total: (old(self)@.total + order@.quantity) as u64,
                ..old(self)@
            }),
            total_in_sync(old(self)@) ==> total_in_sync(final(self)@),
    {
        proof {
            lemma_sum_qty_push(old(self)@.orders, order@);
        }
        self.total_quantity = Quantity::new(
            self.total_quantity.get_quantity() + order.get_quantity().get_quantity(),
        );
        let ghost before = self.orders@;
        self.orders.push_back(order);
        assert(order_views(self.orders@) =~= order_views(before).push(order@));
    }

    /// Whether no order rests at this level.
    pub fn is_queue_empty(&self) -> (r: bool)
        ensures
            r == (self@.orders.len() == 0),
    {
        return self.orders.len() == 0;
    }

    /// The position of the first order with id `id` in the queue.
    fn position_of(&self, id: u64) -> (r: usize)
        requires
            has_id(self@.orders, id),
        ensures
            is_first_position(self@.orders, id, r as int),
    {
        let mut i: usize = 0;
        while i < self.orders.len()
            invariant
                0 <= i <= self@.orders.len(),
                self@.orders.len() == self.orders@.len(),
                has_id(self@.orders, id),
                forall|j: int| 0 <= j < i ==> #[trigger] self@.orders[j].id != id,
            decreases self@.orders.len() - i,
        {
            if self.orders[i].get_id().get_order_id() == id {
                return i;
            }
            i = i + 1;
        }
        proof {
            let k = choose|k: int| 0 <= k < self@.orders.len() && #[trigger] self@.orders[k].id == id;
            assert(self@.orders[k].id != id);
        }
        i
    }

    /// Matches `order` against the queue, front first, as [`fill_level`]
    /// describes: returns the trades and the ids of the resting orders that
    /// left the queue filled, leaves in `order` the quantity that is left.
    pub fn match_within_level(&mut self, order: &mut Order) -> (r: (Vec<Trade>, Vec<OrderId>))
        requires
            total_in_sync(old(self)@),
        ensures
            ({
                let f = fill_level(
                    old(self)@.orders,
                    old(self)@.total,
                    old(order)@.id,
                    old(order)@.quantity,
                );
                &&& trade_views(r.0@) == f.trades
                &&& id_views(r.1@) == f.filled_ids
                &&& final(self)@ == (LevelModel { orders: f.rest, total: f.total, ..old(self)@ })
                &&& final(order)@ == (OrderModel { quantity: f.remaining, ..old(order)@ })
            }),
            total_in_sync(final(self)@),
    {
        let mut trades: Vec<Trade> = Vec::new();
        let mut removed_order_ids: Vec<OrderId> = Vec::new();
        let ghost f0 = fill_level(
            old(self)@.orders,
            old(self)@.total,
            old(order)@.id,
            old(order)@.quantity,
        );
        proof {
            assert(trade_views(trades@) =~= Seq::<TradeModel>::empty());
            assert(id_views(removed_order_ids@) =~= Seq::<u64>::empty());
        }

        while order.get_quantity().get_quantity() > 0 && !self.is_queue_empty()
            invariant
                total_in_sync(self@),
                self@.price == old(self)@.price,
                order@ == (OrderModel { quantity: order@.quantity, ..old(order)@ }),
                f0 == fill_level(
                    old(self)@.orders,
                    old(self)@.total,
                    old(order)@.id,
                    old(order)@.quantity,
                ),
                ({
                    let f = fill_level(self@.orders, self@.total, order@.id, order@.quantity);
                    &&& trade_views(trades@) + f.trades == f0.trades
                    &&& id_views(removed_order_ids@) + f.filled_ids == f0.filled_ids
                    &&& f.rest == f0.rest
                    &&& f.total == f0.total
                    &&& f.remaining == f0.remaining
                }),
            decreases self@.orders.len() + (if order@.quantity > 0 {
                1int
            } else {
                0int
            }),
        {
            let ghost pre = self@;
            let ghost pre_qty = order@.quantity;
            let ghost pre_trades = trade_views(trades@);
            let ghost pre_ids = id_views(removed_order_ids@);
            let resting_order = self.orders.pop_front().unwrap();
            proof {
                lemma_sum_qty_nonneg(pre.orders.drop_first());
                assert(order_views(self.orders@) =~= pre.orders.drop_first());
                assert(resting_order@ == pre.orders[0]);
            }

            let incoming_quantity = order.get_quantity().get_quantity();
            let resting_quantity = resting_order.get_quantity().get_quantity();

            if incoming_quantity < resting_quantity {
                // the resting order absorbs the incoming order and stays at
                // the front of the queue with what is left of it
                let mut resting_order = resting_order;
                // keep the running total in sync with what rests
                self.total_quantity = Quantity::new(
                    self.total_quantity.get_quantity() - incoming_quantity,
                );
                resting_order.set_quantity(Quantity::new(resting_quantity - incoming_quantity));
                order.set_quantity(Quantity::new(0));
                let trade = Trade::new(
                    resting_order.get_price(),
                    Quantity::new(incoming_quantity),
                    order.get_id(),
                    resting_order.get_id(),
                );
                self.orders.push_front(resting_order);
                trades.push(trade);
                proof {
                    let front = pre.orders[0];
                    assert(order_views(self.orders@) =~= pre.orders.update(
                        0,
                        OrderModel { quantity: (front.quantity - pre_qty) as u64, ..front },
                    ));
                    assert(pre.orders.update(
                        0,
                        OrderModel { quantity: (front.quantity - pre_qty) as u64, ..front },
                    ).drop_first() =~= pre.orders.drop_first());
                    assert(trade_views(trades@) =~= pre_trades.push(trade@));
                    let f = fill_level(self@.orders, self@.total, order@.id, order@.quantity);
                    assert(pre_trades + seq![trade@] =~= pre_trades.push(trade@));
                    assert(trade_views(trades@) + f.trades =~= pre_trades + seq![trade@]);
                    assert(id_views(removed_order_ids@) + f.filled_ids =~= pre_ids);
                }
            } else {
                // the resting order is filled completely and leaves the queue
                let resting_id = resting_order.get_id();
                let resting_price = resting_order.get_price();
                self.total_quantity = Quantity::new(
                    self.total_quantity.get_quantity() - resting_quantity,
                );
                if incoming_quantity > resting_quantity {
                    order.set_quantity(Quantity::new(incoming_quantity - resting_quantity));
                } else {
                    order.set_quantity(Quantity::new(0));
                }
                let trade = Trade::new(
                    resting_price,
                    Quantity::new(resting_quantity),
                    order.get_id(),
                    resting_id,
                );
                trades.push(trade);
                removed_order_ids.push(resting_id);
                proof {
                    let front = pre.orders[0];
                    assert(trade_views(trades@) =~= pre_trades.push(trade@));
                    assert(id_views(removed_order_ids@) =~= pre_ids.push(front.id));
                    let f = fill_level(self@.orders, self@.total, order@.id, order@.quantity);
                    assert(trade_views(trades@) + f.trades =~= pre_trades + (seq![trade@]
                        + f.trades));
                    assert(id_views(removed_order_ids@) + f.filled_ids =~= pre_ids + (seq![
                        front.id,
                    ] + f.filled_ids));
                }
            }
        }
        proof {
            let f = fill_level(self@.orders, self@.total, order@.id, order@.quantity);
            assert(f.trades =~= Seq::<TradeModel>::empty());
            assert(f.filled_ids =~= Seq::<u64>::empty());
            assert(trade_views(trades@) =~= trade_views(trades@) + f.trades);
            assert(id_views(removed_order_ids@) =~= id_views(removed_order_ids@) + f.filled_ids);
        }
        (trades, removed_order_ids)
    }
}


// ---------------------------------------------------------------------------
// The book
// ---------------------------------------------------------------------------

/// Where a resting order is: its side and price.
#[derive(Debug, PartialEq)]
pub struct OrderLocation {
    side: Side,
    price: Price,
}

/// The order book: bid and ask levels keyed by price, and the location of
/// each resting order by id.
#[derive(Debug, PartialEq)]
pub struct OrderBook {
    bid: BTreeMap<u64, PriceLevel>,
    ask: BTreeMap<u64, PriceLevel>,
    order_search: HashMap<u64, OrderLocation>,
}

/// The views of the levels of one side.
pub open spec fn level_views(m: Map<u64, PriceLevel>) -> Map<u64, LevelModel> {
    m.map_values(|l: PriceLevel| l@)
}

/// The views of the locations of the resting orders.
pub closed spec fn location_views(m: Map<u64, OrderLocation>) -> Map<u64, (Side, u64)> {
    m.map_values(|l: OrderLocation| (l.side, l.price@))
}

broadcast proof fn lemma_level_views_insert(m: Map<u64, PriceLevel>, k: u64, v: PriceLevel)
    ensures
        #[trigger] level_views(m.insert(k, v)) == level_views(m).insert(k, v@),
{
    assert(level_views(m.insert(k, v)) =~= level_views(m).insert(k, v@));
}

broadcast proof fn lemma_level_views_remove(m: Map<u64, PriceLevel>, k: u64)
    ensures
        #[trigger] level_views(m.remove(k)) == level_views(m).remove(k),
{
    assert(level_views(m.remove(k)) =~= level_views(m).remove(k));
}

broadcast proof fn lemma_level_views_dom(m: Map<u64, PriceLevel>)
    ensures
        #[trigger] level_views(m).dom() == m.dom(),
{
    assert(level_views(m).dom() =~= m.dom());
}

broadcast proof fn lemma_location_views_insert(m: Map<u64, OrderLocation>, k: u64, v: OrderLocation)
    ensures
        #[trigger] location_views(m.insert(k, v)) == location_views(m).insert(k, (v.side, v.price@)),
{
    assert(location_views(m.insert(k, v)) =~= location_views(m).insert(k, (v.side, v.price@)));
}

broadcast proof fn lemma_location_views_remove(m: Map<u64, OrderLocation>, k: u64)
    ensures
        #[trigger] location_views(m.remove(k)) == location_views(m).remove(k),
{
    assert(location_views(m.remove(k)) =~= location_views(m).remove(k));
}

broadcast group group_book_views {
    lemma_level_views_insert,
    lemma_level_views_remove,
    lemma_level_views_dom,
    lemma_location_views_insert,
    lemma_location_views_remove,
}

impl View for OrderBook {
    type V = BookModel;

    closed spec fn view(&self) -> BookModel {
        BookModel {
            bids: level_views(self.bid@),
            asks: level_views(self.ask@),
            locations: location_views(self.order_search@),
        }
    }
}

impl OrderBook {
    /// The book is sound ([`book_ok`]).
    pub open spec fn wf(&self) -> bool {
        book_ok(self@)
    }

    /// An empty book.
    pub fn new() -> (r: OrderBook)
        ensures
            r@ == (BookModel { bids: Map::empty(), asks: Map::empty(), locations: Map::empty() }),
            r.wf(),
    {
        let r = OrderBook { bid: BTreeMap::new(), ask: BTreeMap::new(), order_search: HashMap::new() };
        proof {
            assert(level_views(r.bid@) =~= Map::empty());
            assert(level_views(r.ask@) =~= Map::empty());
            assert(location_views(r.order_search@) =~= Map::empty());
        }
        r
    }

    /// The highest bid price, `None` when there is no bid.
    pub fn get_best_bid(&self) -> (r: Option<Price>)
        ensures
            match r {
                None => self@.bids.dom().is_empty(),
                Some(p) => !self@.bids.dom().is_empty() && p@ == highest(self@.bids.dom()),
            },
    {
        proof {
            broadcast use group_book_views;
        }
        match highest_key(&self.bid) {
            Some(k) => Some(Price::new(k)),
            None => None,
        }
    }

    /// The lowest ask price, `None` when there is no ask.
    pub fn get_best_ask(&self) -> (r: Option<Price>)
        ensures
            match r {
                None => self@.asks.dom().is_empty(),
                Some(p) => !self@.asks.dom().is_empty() && p@ == lowest(self@.asks.dom()),
            },
    {
        proof {
            broadcast use group_book_views;
        }
        match lowest_key(&self.ask) {
            Some(k) => Some(Price::new(k)),
            None => None,
        }
    }

    /// The level at the best price of the side opposite to `side` (the lowest
    /// ask for a buy, the highest bid for a sell), for matching an incoming
    /// order of `side` against it; `None` when that side is empty.
    pub fn get_best_opposite_level(&mut self, side: Side) -> (r: Option<&mut PriceLevel>)
        ensures
            ({
                let opp = levels_of(old(self)@, opposite(side));
                match r {
                    None => opp.dom().is_empty() && final(self)@ == old(self)@,
                    Some(l) => {
                        &&& !opp.dom().is_empty()
                        &&& l@ == opp[best_price(opp.dom(), side)]
                        &&& final(self)@ == with_levels(
                            old(self)@,
                            opposite(side),
                            opp.insert(best_price(opp.dom(), side), final(l)@),
                        )
                    },
                }
            }),
    {
        proof {
            broadcast use group_book_views;
        }
        match side {
            Side::Buy => {
                let best_ask_price = match self.get_best_ask() {
                    Some(p) => p,
                    None => {
                        return None;
                    },
                };
                proof {
                    broadcast use vstd::std_specs::btree::group_btree_axioms;

                    lemma_best_price(self@.asks.dom(), Side::Buy);
                }
                value_mut(&mut self.ask, best_ask_price.get_price())
            },
            Side::Sell => {
                let best_bid_price = match self.get_best_bid() {
                    Some(p) => p,
                    None => {
                        return None;
                    },
                };
                proof {
                    broadcast use vstd::std_specs::btree::group_btree_axioms;

                    lemma_best_price(self@.bids.dom(), Side::Sell);
                }
                value_mut(&mut self.bid, best_bid_price.get_price())
            },
        }
    }

    /// Whether an incoming order of `side` at limit `price` crosses the
    /// spread: a buy reaches the lowest ask, a sell reaches the highest bid.
    pub fn check_if_order_crosses(&self, price: Price, side: Side) -> (r: bool)
        ensures
            r == crosses(levels_of(self@, opposite(side)), side, price@),
    {
        match side {
            Side::Buy => {
                match self.get_best_ask() {
                    Some(best_ask) => price.get_price() >= best_ask.get_price(),
                    None => false,
                }
            },
            Side::Sell => {
                match self.get_best_bid() {
                    Some(best_bid) => price.get_price() <= best_bid.get_price(),
                    None => false,
                }
            },
        }
    }
}


/// Adds `order` to the back of the level at its price, creating the level
/// when there is none.
fn add_to_side(levels: &mut BTreeMap<u64, PriceLevel>, order: Order)
    requires
        (if level_views(old(levels)@).contains_key(order@.price) {
            level_views(old(levels)@)[order@.price].total as int
        } else {
            0int
        }) + order@.quantity <= u64::MAX,
    ensures
        level_views(final(levels)@) == add_to_levels(level_views(old(levels)@), order@),
{
    proof {
        broadcast use group_book_views;
        broadcast use vstd::std_specs::btree::group_btree_axioms;
        lemma_u64_keys_ordered();
    }
    let price = order.get_price();
    let key = price.get_price();
    if !levels.contains_key(&key) {
        levels.insert(key, PriceLevel::new(price));
    }
    let price_level = value_mut(levels, key).unwrap();
    price_level.add_order_to_price_level(order);
    proof {
        assert(seq![order@] =~= Seq::<OrderModel>::empty().push(order@));
    }
}

/// Removes the first order with id `id` from the level at `price`, and the
/// level itself when that leaves it empty.
fn remove_from_side(levels: &mut BTreeMap<u64, PriceLevel>, price: u64, id: u64)
    requires
        level_views(old(levels)@).contains_key(price),
        has_id(level_views(old(levels)@)[price].orders, id),
        total_in_sync(level_views(old(levels)@)[price]),
    ensures
        level_views(final(levels)@) == remove_from_levels(level_views(old(levels)@), price, id),
{
    proof {
        broadcast use group_book_views;
        broadcast use vstd::std_specs::btree::group_btree_axioms;
        lemma_u64_keys_ordered();
    }
    let ghost old_level = level_views(levels@)[price];
    let price_level = value_mut(levels, price).unwrap();
    let index = price_level.position_of(id);
    let removed_order = price_level.orders.remove(index).unwrap();
    proof {
        lemma_first_position_unique(old_level.orders, id, index as int);
        lemma_sum_qty_remove(old_level.orders, index as int);
        lemma_sum_qty_nonneg(old_level.orders.remove(index as int));
        assert(order_views(price_level.orders@) =~= old_level.orders.remove(index as int));
    }
    price_level.total_quantity = Quantity::new(
        price_level.total_quantity.get_quantity() - removed_order.get_quantity().get_quantity(),
    );
    let should_remove_level = price_level.is_queue_empty();
    if should_remove_level {
        levels.remove(&price);
    }
}

impl OrderBook {
    /// Rests `order` in the book: it joins the back of the queue at its
    /// price on its side, and its location is recorded under its id.
    pub fn insert_new_order(&mut self, order: Order)
        requires
            old(self).wf(),
            level_total(old(self)@, order@.side, order@.price) + order@.quantity <= u64::MAX,
        ensures
            final(self).wf(),
            final(self)@ == insert_book(old(self)@, order@),
    {
        proof {
            broadcast use group_book_views;
            broadcast use vstd::std_specs::hash::group_hash_axioms;
        }
        let side = order.get_side();
        let price = order.get_price();
        let id = order.get_id();
        let ghost o = order@;
        match side {
            Side::Buy => add_to_side(&mut self.bid, order),
            Side::Sell => add_to_side(&mut self.ask, order),
        }
        self.order_search.insert(id.get_order_id(), OrderLocation { side, price });
        proof {
            lemma_insert_ok(old(self)@, o);
        }
    }

    /// Cancels the order `order_id`: returns `false` and changes nothing when
    /// the id is not known; otherwise the first order with that id leaves the
    /// level its location names (the level too when it is left empty), the
    /// location is forgotten, and `true` is returned.
    pub fn cancel_order(&mut self, order_id: OrderId) -> (r: bool)
        requires
            old(self).wf(),
        ensures
            final(self).wf(),
            r == old(self)@.locations.contains_key(order_id@),
            final(self)@ == cancel_book(old(self)@, order_id@),
    {
        proof {
            broadcast use group_book_views;
            broadcast use vstd::std_specs::hash::group_hash_axioms;
        }
        let id = order_id.get_order_id();
        match self.order_search.get(&id) {
            Some(location) => {
                let side = location.side;
                let price = location.price.get_price();
                proof {
                    assert(self@.locations.contains_key(id));
                    assert(self@.locations[id] == (side, price));
                }
                match side {
                    Side::Buy => remove_from_side(&mut self.bid, price, id),
                    Side::Sell => remove_from_side(&mut self.ask, price, id),
                }
                self.order_search.remove(&id);
                proof {
                    lemma_cancel_ok(old(self)@, id);
                }
                true
            },
            None => {
                proof {
                    assert(!self@.locations.contains_key(id));
                }
                false
            },
        }
    }
}


/// Forgets the location of every order whose id is in `ids`.
fn forget_locations(search: &mut HashMap<u64, OrderLocation>, ids: &Vec<OrderId>)
    ensures
        location_views(final(search)@) == location_views(old(search)@).remove_keys(
            id_views(ids@).to_set(),
        ),
{
    proof {
        broadcast use group_book_views;
        broadcast use vstd::std_specs::hash::group_hash_axioms;
    }
    let mut i: usize = 0;
    while i < ids.len()
        invariant
            0 <= i <= ids@.len(),
            location_views(search@) == location_views(old(search)@).remove_keys(
                id_views(ids@).take(i as int).to_set(),
            ),
        decreases ids@.len() - i,
    {
        let id = ids[i].get_order_id();
        let ghost before = location_views(search@);
        search.remove(&id);
        proof {
            let done = id_views(ids@).take(i as int);
            assert(id_views(ids@).take(i + 1) =~= done + seq![id]);
            lemma_remove_keys_append(location_views(old(search)@), done, seq![id]);
            assert(seq![id].to_set() =~= set![id]) by {
                assert(seq![id][0] == id);
            }
            assert(before.remove(id) =~= before.remove_keys(seq![id].to_set()));
        }
        i = i + 1;
    }
    proof {
        assert(id_views(ids@).take(ids@.len() as int) =~= id_views(ids@));
    }
}

impl OrderBook {
    /// Matches `order` against the opposite side of the book as
    /// [`fill_book`] describes (best price first, oldest order first within
    /// a price), removes the resting orders it fills and the levels it
    /// empties, and returns the trades and the quantity left. What is left
    /// is not rested in the book.
    pub fn process_order(&mut self, order: Order) -> (r: (Vec<Trade>, Quantity))
        requires
            old(self).wf(),
        ensures
            final(self).wf(),
            trade_views(r.0@) == process_fill(old(self)@, order@).trades,
            r.1@ == process_fill(old(self)@, order@).remaining,
            final(self)@ == process_book(old(self)@, order@),
    {
        proof {
            broadcast use group_book_views;
            broadcast use vstd::std_specs::btree::group_btree_axioms;
            lemma_u64_keys_ordered();
        }
        let mut remaining_order = order;
        let mut trades: Vec<Trade> = Vec::new();
        let ghost o = order@;
        let ghost side = o.side;
        let ghost os = opposite(o.side);
        let ghost f0 = process_fill(old(self)@, o);
        let ghost mut ids: Seq<u64> = seq![];
        proof {
            assert(trade_views(trades@) =~= Seq::<TradeModel>::empty());
            assert(old(self)@.locations.remove_keys(ids.to_set()) =~= old(self)@.locations);
            assert(ids + f0.filled_ids =~= f0.filled_ids);
        }

        while remaining_order.get_quantity().get_quantity() > 0 && self.check_if_order_crosses(
            remaining_order.get_price(),
            remaining_order.get_side(),
        )
            invariant
                self.wf(),
                remaining_order@ == (OrderModel { quantity: remaining_order@.quantity, ..o }),
                f0 == process_fill(old(self)@, o),
                side == o.side,
                os == opposite(o.side),
                levels_of(self@, side) == levels_of(old(self)@, side),
                self@.locations == old(self)@.locations.remove_keys(ids.to_set()),
                ({
                    let f = fill_book(
                        levels_of(self@, os),
                        side,
                        o.price,
                        o.id,
                        remaining_order@.quantity,
                    );
                    &&& trade_views(trades@) + f.trades == f0.trades
                    &&& ids + f.filled_ids == f0.filled_ids
                    &&& f.levels == f0.levels
                    &&& f.remaining == f0.remaining
                }),
            decreases levels_of(self@, os).dom().len() + (if remaining_order@.quantity > 0 {
                1int
            } else {
                0int
            }),
        {
            let ghost m = self@;
            let ghost opp = levels_of(m, os);
            let ghost qty = remaining_order@.quantity;
            let ghost lf = best_level_fill(opp, side, o.id, qty);
            let ghost pre_trades = trade_views(trades@);
            proof {
                lemma_best_price(opp.dom(), side);
                lemma_fill_book_step(opp, side, o.price, o.id, qty);
                lemma_best_level_ok(m, side, o.id, qty);
            }

            // the level at the best price of the opposite side
            let price_level = self.get_best_opposite_level(remaining_order.get_side()).unwrap();
            // consume its queue as far as the incoming order reaches
            let (mut level_trades, removed_order_ids) = price_level.match_within_level(
                &mut remaining_order,
            );
            let level_is_empty = price_level.is_queue_empty();
            proof {
                let best = best_price(opp.dom(), side);
                assert(level_is_empty == (lf.rest.len() == 0));
                assert(levels_of(self@, os) == opp.insert(
                    best,
                    LevelModel { orders: lf.rest, total: lf.total, ..opp[best] },
                ));
                assert(levels_of(self@, side) == levels_of(m, side));
                assert(self@.locations == m.locations);
                assert(levels_of(self@, os).dom() =~= opp.dom());
                assert(opp.insert(
                    best,
                    LevelModel { orders: lf.rest, total: lf.total, ..opp[best] },
                ).remove(best) =~= opp.remove(best));
            }

            // the filled resting orders can no longer be found
            forget_locations(&mut self.order_search, &removed_order_ids);
            proof {
                lemma_remove_keys_append(old(self)@.locations, ids, lf.filled_ids);
                ids = ids + lf.filled_ids;
            }

            trades.append(&mut level_trades);
            proof {
                assert(trade_views(trades@) =~= pre_trades + lf.trades);
            }

            // a level whose queue is drained leaves the book
            if level_is_empty {
                match remaining_order.get_side() {
                    Side::Buy => {
                        let best_ask = self.get_best_ask().unwrap();
                        self.ask.remove(&best_ask.get_price());
                    },
                    Side::Sell => {
                        let best_bid = self.get_best_bid().unwrap();
                        self.bid.remove(&best_bid.get_price());
                    },
                }
            }
            proof {
                let best = best_price(opp.dom(), side);
                assert(self@.locations == m.locations.remove_keys(lf.filled_ids.to_set()));
                assert(levels_of(self@, side) == levels_of(m, side));
                assert(levels_of(self@, os) == levels_after_best(opp, side, o.id, qty));
                assert(self@ == book_after_best(m, side, o.id, qty)) by {
                    match side {
                        Side::Buy => {},
                        Side::Sell => {},
                    }
                }
            }
        }
        let leftover = remaining_order.get_quantity();
        proof {
            let f = fill_book(levels_of(self@, os), side, o.price, o.id, remaining_order@.quantity);
            assert(trade_views(trades@) + f.trades =~= trade_views(trades@));
            assert(ids + f.filled_ids =~= ids);
            assert(self@ =~= process_book(old(self)@, o)) by {
                match o.side {
                    Side::Buy => {},
                    Side::Sell => {},
                }
            }
        }
        (trades, leftover)
    }
}

} // verus!

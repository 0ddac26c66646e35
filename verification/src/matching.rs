//! The mathematical model of the order book and of matching: what a price
//! level and the book are, what matching an incoming order, resting an order
//! and cancelling one do to them, the book's invariant, and the lemmas that
//! show each operation keeps it.
use crate::price_map::{
    highest, is_highest, is_lowest, lemma_highest, lemma_lowest, lemma_nonempty_len, lowest,
};
use crate::types::{Order, OrderId, OrderModel, Side, Trade, TradeModel};
use vstd::prelude::*;

verus! {

// ---------------------------------------------------------------------------
// The model of a price level and of matching within it
// ---------------------------------------------------------------------------

/// The mathematical view of a [`PriceLevel`]: its price, the queue of
/// resting orders (front first) and its running total quantity.
pub struct LevelModel {
    pub price: u64,
    pub orders: Seq<OrderModel>,
    pub total: u64,
}

/// The sum of the quantities of a queue of orders.
pub open spec fn sum_qty(s: Seq<OrderModel>) -> int
    decreases s.len(),
{
    if s.len() == 0 {
        0
    } else {
        s[0].quantity + sum_qty(s.drop_first())
    }
}

/// The running total of a level is the sum of what rests in it.
pub open spec fn total_in_sync(l: LevelModel) -> bool {
    l.total == sum_qty(l.orders)
}

/// What matching an incoming order against one queue yields.
pub struct LevelFill {
    /// The trades, in the order they happened.
    pub trades: Seq<TradeModel>,
    /// The queue afterwards.
    pub rest: Seq<OrderModel>,
    /// The level's running total afterwards.
    pub total: u64,
    /// The incoming order's quantity that is left.
    pub remaining: u64,
    /// The ids of the resting orders that were filled completely and left
    /// the queue, in the order they left.
    pub filled_ids: Seq<u64>,
}

/// The trade of `quantity` between the incoming order `incoming_id` and the
/// resting order `resting`, at the resting order's price.
pub open spec fn trade_with(resting: OrderModel, quantity: u64, incoming_id: u64) -> TradeModel {
    TradeModel {
        price: resting.price,
        quantity,
        incoming_order_id: incoming_id,
        resting_order_id: resting.id,
    }
}

/// Matching an incoming quantity `qty` of order `incoming_id` against a queue,
/// front first: while quantity is left and the queue is not empty, the
/// front order trades `min(qty, its quantity)` at its own price and the
/// traded quantity leaves the running total; a front order that is filled
/// completely leaves the queue, one that is filled in part stays at the
/// front with what is left of it.
pub open spec fn fill_level(
    orders: Seq<OrderModel>,
    total: u64,
    incoming_id: u64,
    qty: u64,
) -> LevelFill
    decreases orders.len(),
{
    if qty == 0 || orders.len() == 0 {
        LevelFill { trades: seq![], rest: orders, total, remaining: qty, filled_ids: seq![] }
    } else {
        let front = orders[0];
        if qty < front.quantity {
            LevelFill {
                trades: seq![trade_with(front, qty, incoming_id)],
                rest: orders.update(
                    0,
                    OrderModel { quantity: (front.quantity - qty) as u64, ..front },
                ),
                total: (total - qty) as u64,
                remaining: 0,
                filled_ids: seq![],
            }
        } else {
            let next = fill_level(
                orders.drop_first(),
                (total - front.quantity) as u64,
                incoming_id,
                (qty - front.quantity) as u64,
            );
            LevelFill {
                trades: seq![trade_with(front, front.quantity, incoming_id)] + next.trades,
                rest: next.rest,
                total: next.total,
                remaining: next.remaining,
                filled_ids: seq![front.id] + next.filled_ids,
            }
        }
    }
}

/// The views of a sequence of trades.
pub open spec fn trade_views(v: Seq<Trade>) -> Seq<TradeModel> {
    v.map_values(|t: Trade| t@)
}

/// The views of a sequence of order ids.
pub open spec fn id_views(v: Seq<OrderId>) -> Seq<u64> {
    v.map_values(|i: OrderId| i@)
}

/// The views of a sequence of orders.
pub open spec fn order_views(v: Seq<Order>) -> Seq<OrderModel> {
    v.map_values(|o: Order| o@)
}

/// Appending an order adds its quantity to the sum.
pub proof fn lemma_sum_qty_push(s: Seq<OrderModel>, o: OrderModel)
    ensures
        sum_qty(s.push(o)) == sum_qty(s) + o.quantity,
    decreases s.len(),
{
    assert(s.push(o)[0] == if s.len() == 0 { o } else { s[0] });
    if s.len() == 0 {
        assert(s.push(o).drop_first() =~= Seq::<OrderModel>::empty());
        assert(sum_qty(s.push(o).drop_first()) == 0);
    } else {
        assert(s.push(o).drop_first() =~= s.drop_first().push(o));
        lemma_sum_qty_push(s.drop_first(), o);
    }
}

/// Removing an order takes its quantity from the sum.
pub proof fn lemma_sum_qty_remove(s: Seq<OrderModel>, i: int)
    requires
        0 <= i < s.len(),
    ensures
        sum_qty(s.remove(i)) == sum_qty(s) - s[i].quantity,
    decreases s.len(),
{
    if i == 0 {
        assert(s.remove(0) =~= s.drop_first());
    } else {
        assert(s.remove(i).drop_first() =~= s.drop_first().remove(i - 1));
        lemma_sum_qty_remove(s.drop_first(), i - 1);
    }
}

/// A sum of quantities is not negative.
pub proof fn lemma_sum_qty_nonneg(s: Seq<OrderModel>)
    ensures
        sum_qty(s) >= 0,
    decreases s.len(),
{
    if s.len() > 0 {
        lemma_sum_qty_nonneg(s.drop_first());
    }
}


/// The sum of the quantities of a sequence of trades.
pub open spec fn traded_qty(s: Seq<TradeModel>) -> int
    decreases s.len(),
{
    if s.len() == 0 {
        0
    } else {
        s[0].quantity + traded_qty(s.drop_first())
    }
}

/// The traded quantity of two runs of trades is the sum of theirs.
pub proof fn lemma_traded_qty_append(a: Seq<TradeModel>, b: Seq<TradeModel>)
    ensures
        traded_qty(a + b) == traded_qty(a) + traded_qty(b),
    decreases a.len(),
{
    if a.len() == 0 {
        assert(a + b =~= b);
    } else {
        assert((a + b).drop_first() =~= a.drop_first() + b);
        lemma_traded_qty_append(a.drop_first(), b);
    }
}

/// The two orders are the same order, perhaps with different quantities.
pub open spec fn same_order(a: OrderModel, b: OrderModel) -> bool {
    &&& a.id == b.id
    &&& a.price == b.price
    &&& a.side == b.side
}

/// What [`fill_level`] does, element by element: the first `n` orders of the
/// queue leave it filled (`n` the number of filled ids), the others stay in
/// their order, the `j`-th trade is with the `j`-th order of the queue at
/// its price, and the quantities traded and left add up to the incoming
/// quantity.
pub proof fn lemma_fill_level(orders: Seq<OrderModel>, total: u64, incoming_id: u64, qty: u64)
    ensures
        ({
            let f = fill_level(orders, total, incoming_id, qty);
            let n = f.filled_ids.len();
            &&& n + f.rest.len() == orders.len()
            &&& forall|k: int| 0 <= k < n ==> #[trigger] f.filled_ids[k] == orders[k].id
            &&& forall|k: int|
                0 <= k < f.rest.len() ==> same_order(#[trigger] f.rest[k], orders[n + k])
            &&& forall|k: int| 0 < k < f.rest.len() ==> #[trigger] f.rest[k] == orders[n + k]
            &&& f.rest.len() > 0 ==> f.remaining == 0
            &&& total == sum_qty(orders) ==> f.total == sum_qty(f.rest)
            &&& f.trades.len() <= orders.len()
            &&& forall|j: int|
                0 <= j < f.trades.len() ==> #[trigger] f.trades[j] == trade_with(
                    orders[j],
                    f.trades[j].quantity,
                    incoming_id,
                )
            &&& traded_qty(f.trades) + f.remaining == qty
        }),
    decreases orders.len(),
{
    let f = fill_level(orders, total, incoming_id, qty);
    if qty == 0 || orders.len() == 0 {
    } else {
        let front = orders[0];
        if qty < front.quantity {
            let rest = orders.update(
                0,
                OrderModel { quantity: (front.quantity - qty) as u64, ..front },
            );
            assert(rest.drop_first() =~= orders.drop_first());
            lemma_sum_qty_nonneg(orders.drop_first());
            assert(f.trades.drop_first() =~= Seq::<TradeModel>::empty());
            assert(traded_qty(f.trades.drop_first()) == 0);
            assert(total == sum_qty(orders) ==> f.total == sum_qty(f.rest));
        } else {
            let next = fill_level(
                orders.drop_first(),
                (total - front.quantity) as u64,
                incoming_id,
                (qty - front.quantity) as u64,
            );
            lemma_fill_level(
                orders.drop_first(),
                (total - front.quantity) as u64,
                incoming_id,
                (qty - front.quantity) as u64,
            );
            lemma_sum_qty_nonneg(orders.drop_first());
            let n = f.filled_ids.len();
            assert forall|k: int| 0 <= k < n implies #[trigger] f.filled_ids[k] == orders[k].id by {
                if k > 0 {
                    assert(f.filled_ids[k] == next.filled_ids[k - 1]);
                }
            }
            assert forall|k: int| 0 <= k < f.rest.len() implies same_order(
                #[trigger] f.rest[k],
                orders[n + k],
            ) by {
                assert(orders.drop_first()[(n - 1) + k] == orders[n + k]);
            }
            assert forall|k: int| 0 < k < f.rest.len() implies #[trigger] f.rest[k] == orders[n
                + k] by {
                assert(orders.drop_first()[(n - 1) + k] == orders[n + k]);
            }
            assert forall|j: int| 0 <= j < f.trades.len() implies #[trigger] f.trades[j]
                == trade_with(orders[j], f.trades[j].quantity, incoming_id) by {
                if j > 0 {
                    assert(f.trades[j] == next.trades[j - 1]);
                }
            }
            let t0 = trade_with(front, front.quantity, incoming_id);
            assert(f.trades.drop_first() =~= next.trades);
            assert(traded_qty(f.trades) + f.remaining == qty);
            assert(n + f.rest.len() == orders.len());
            assert(f.rest.len() > 0 ==> f.remaining == 0);
            assert(total == sum_qty(orders) ==> f.total == sum_qty(f.rest));
            assert(f.trades.len() <= orders.len());
        }
    }
}


// ---------------------------------------------------------------------------
// The model of the book and of matching against it
// ---------------------------------------------------------------------------

/// The mathematical view of the order book: the bid and ask levels keyed by
/// price, and where each known order id rests (its side and price).
pub struct BookModel {
    pub bids: Map<u64, LevelModel>,
    pub asks: Map<u64, LevelModel>,
    pub locations: Map<u64, (Side, u64)>,
}

/// The other side.
pub open spec fn opposite(side: Side) -> Side {
    match side {
        Side::Buy => Side::Sell,
        Side::Sell => Side::Buy,
    }
}

/// The levels of one side: bids for buy orders, asks for sell orders.
pub open spec fn levels_of(m: BookModel, side: Side) -> Map<u64, LevelModel> {
    match side {
        Side::Buy => m.bids,
        Side::Sell => m.asks,
    }
}

/// The book with the levels of one side replaced.
pub open spec fn with_levels(m: BookModel, side: Side, levels: Map<u64, LevelModel>) -> BookModel {
    match side {
        Side::Buy => BookModel { bids: levels, ..m },
        Side::Sell => BookModel { asks: levels, ..m },
    }
}

/// The best price that an incoming order of `side` can meet among the prices
/// of the opposite side: the lowest ask for a buy, the highest bid for a sell.
pub open spec fn best_price(prices: Set<u64>, side: Side) -> u64 {
    match side {
        Side::Buy => lowest(prices),
        Side::Sell => highest(prices),
    }
}

/// An incoming order of `side` at limit `price` crosses the opposite levels
/// `opp`: they are not empty and the limit reaches their best price.
pub open spec fn crosses(opp: Map<u64, LevelModel>, side: Side, price: u64) -> bool {
    &&& !opp.dom().is_empty()
    &&& match side {
        Side::Buy => price >= lowest(opp.dom()),
        Side::Sell => price <= highest(opp.dom()),
    }
}

/// What matching an incoming order against the opposite side yields.
pub struct BookFill {
    /// The trades, in the order they happened.
    pub trades: Seq<TradeModel>,
    /// The opposite side's levels afterwards.
    pub levels: Map<u64, LevelModel>,
    /// The incoming order's quantity that is left.
    pub remaining: u64,
    /// The ids of the resting orders that were filled completely.
    pub filled_ids: Seq<u64>,
}

/// The best price of a finite non-empty set of prices is one of them, the
/// lowest for a buy and the highest for a sell.
pub proof fn lemma_best_price(prices: Set<u64>, side: Side)
    requires
        prices.finite(),
        !prices.is_empty(),
    ensures
        prices.contains(best_price(prices, side)),
        side == Side::Buy ==> is_lowest(prices, best_price(prices, side)),
        side == Side::Sell ==> is_highest(prices, best_price(prices, side)),
{
    lemma_nonempty_len(prices);
    match side {
        Side::Buy => lemma_lowest(prices),
        Side::Sell => lemma_highest(prices),
    }
}

/// Matching an incoming order of `side`, limit `price`, id `incoming_id` and
/// quantity `qty` against the opposite levels `opp`: while quantity is left
/// and the order crosses, it is matched against the level at the best price
/// ([`fill_level`]); a level that is emptied leaves the book, and matching
/// goes on at the next best price.
pub open spec fn fill_book(
    opp: Map<u64, LevelModel>,
    side: Side,
    price: u64,
    incoming_id: u64,
    qty: u64,
) -> BookFill
    decreases opp.dom().len(),
{
    if qty > 0 && crosses(opp, side, price) && opp.dom().finite() {
        let best = best_price(opp.dom(), side);
        let level = opp[best];
        let f = fill_level(level.orders, level.total, incoming_id, qty);
        if f.rest.len() == 0 {
            proof {
                lemma_best_price(opp.dom(), side);
            }
            let next = fill_book(opp.remove(best), side, price, incoming_id, f.remaining);
            BookFill {
                trades: f.trades + next.trades,
                levels: next.levels,
                remaining: next.remaining,
                filled_ids: f.filled_ids + next.filled_ids,
            }
        } else {
            BookFill {
                trades: f.trades,
                levels: opp.insert(best, LevelModel { orders: f.rest, total: f.total, ..level }),
                remaining: f.remaining,
                filled_ids: f.filled_ids,
            }
        }
    } else {
        BookFill { trades: seq![], levels: opp, remaining: qty, filled_ids: seq![] }
    }
}

/// What processing `order` against the book `m` yields: the matching against
/// the opposite side.
pub open spec fn process_fill(m: BookModel, order: OrderModel) -> BookFill {
    fill_book(levels_of(m, opposite(order.side)), order.side, order.price, order.id, order.quantity)
}

/// The book after processing `order`: the opposite side as matching left it,
/// the order's own side unchanged, and the locations of the filled resting
/// orders forgotten. What is left of the order is not added to the book.
pub open spec fn process_book(m: BookModel, order: OrderModel) -> BookModel {
    let f = process_fill(m, order);
    BookModel {
        locations: m.locations.remove_keys(f.filled_ids.to_set()),
        ..with_levels(m, opposite(order.side), f.levels)
    }
}

// ---------------------------------------------------------------------------
// Insertion and cancellation
// ---------------------------------------------------------------------------

/// The levels of one side after `order` joins the back of the queue at its
/// price, in a new level when there was none.
pub open spec fn add_to_levels(levels: Map<u64, LevelModel>, order: OrderModel) -> Map<
    u64,
    LevelModel,
> {
    if levels.contains_key(order.price) {
        let l = levels[order.price];
        levels.insert(
            order.price,
            LevelModel {
                orders: l.orders.push(order),
                total: (l.total + order.quantity) as u64,
                ..l
            },
        )
    } else {
        levels.insert(
            order.price,
            LevelModel { price: order.price, orders: seq![order], total: order.quantity },
        )
    }
}

/// The running total of the level at `price` of `side`, 0 where there is none.
pub open spec fn level_total(m: BookModel, side: Side, price: u64) -> u64 {
    if levels_of(m, side).contains_key(price) {
        levels_of(m, side)[price].total
    } else {
        0
    }
}

/// The book after `order` rests in it.
pub open spec fn insert_book(m: BookModel, order: OrderModel) -> BookModel {
    BookModel {
        locations: m.locations.insert(order.id, (order.side, order.price)),
        ..with_levels(m, order.side, add_to_levels(levels_of(m, order.side), order))
    }
}

/// `i` is the position of the first order with id `id` in the queue.
pub open spec fn is_first_position(orders: Seq<OrderModel>, id: u64, i: int) -> bool {
    &&& 0 <= i < orders.len()
    &&& orders[i].id == id
    &&& forall|j: int| 0 <= j < i ==> #[trigger] orders[j].id != id
}

/// Some order of the queue has id `id`.
pub open spec fn has_id(orders: Seq<OrderModel>, id: u64) -> bool {
    exists|i: int| 0 <= i < orders.len() && #[trigger] orders[i].id == id
}

/// The position of the first order with id `id` in the queue.
pub open spec fn first_position(orders: Seq<OrderModel>, id: u64) -> int {
    choose|i: int| is_first_position(orders, id, i)
}

/// The levels of one side after the first order with id `id` leaves the
/// level at `price`: its quantity leaves the running total, and a level left
/// empty leaves the side.
pub open spec fn remove_from_levels(levels: Map<u64, LevelModel>, price: u64, id: u64) -> Map<
    u64,
    LevelModel,
> {
    let l = levels[price];
    let i = first_position(l.orders, id);
    let rest = l.orders.remove(i);
    if rest.len() == 0 {
        levels.remove(price)
    } else {
        levels.insert(
            price,
            LevelModel { orders: rest, total: (l.total - l.orders[i].quantity) as u64, ..l },
        )
    }
}

/// The book after cancelling the order `id`: unchanged when the id is not
/// known; otherwise the first order with that id leaves the level its
/// location names, and the location is forgotten.
pub open spec fn cancel_book(m: BookModel, id: u64) -> BookModel {
    if m.locations.contains_key(id) {
        let (side, price) = m.locations[id];
        BookModel {
            locations: m.locations.remove(id),
            ..with_levels(m, side, remove_from_levels(levels_of(m, side), price, id))
        }
    } else {
        m
    }
}

// ---------------------------------------------------------------------------
// The book's invariant
// ---------------------------------------------------------------------------

/// The level stored at `price` of `side` is sound: it has that price, is not
/// empty, its running total is the sum of what rests in it, and every order in it
/// has that price and side.
pub open spec fn level_ok(l: LevelModel, price: u64, side: Side) -> bool {
    &&& l.price == price
    &&& l.orders.len() > 0
    &&& total_in_sync(l)
    &&& forall|i: int|
        0 <= i < l.orders.len() ==> (#[trigger] l.orders[i]).price == price && l.orders[i].side
            == side
}

/// Every level of the side is sound.
pub open spec fn side_ok(levels: Map<u64, LevelModel>, side: Side) -> bool {
    &&& levels.dom().finite()
    &&& forall|p: u64| #[trigger] levels.contains_key(p) ==> level_ok(levels[p], p, side)
}

/// Every known location names a level that holds an order with that id.
pub open spec fn locations_ok(m: BookModel) -> bool {
    forall|id: u64| #[trigger]
        m.locations.contains_key(id) ==> {
            let (side, price) = m.locations[id];
            &&& levels_of(m, side).contains_key(price)
            &&& has_id(levels_of(m, side)[price].orders, id)
        }
}

/// The invariant of the book.
pub open spec fn book_ok(m: BookModel) -> bool {
    &&& side_ok(m.bids, Side::Buy)
    &&& side_ok(m.asks, Side::Sell)
    &&& locations_ok(m)
}


/// The first position of an id is unique.
pub proof fn lemma_first_position_unique(orders: Seq<OrderModel>, id: u64, i: int)
    requires
        is_first_position(orders, id, i),
    ensures
        first_position(orders, id) == i,
{
    let j = first_position(orders, id);
    assert(is_first_position(orders, id, j));
    if j < i {
        assert(orders[j].id != id);
    }
    if i < j {
        assert(orders[i].id != id);
    }
}

/// Resting an order keeps the book sound.
pub proof fn lemma_insert_ok(m: BookModel, o: OrderModel)
    requires
        book_ok(m),
        level_total(m, o.side, o.price) + o.quantity <= u64::MAX,
    ensures
        book_ok(insert_book(m, o)),
{
    let old_levels = levels_of(m, o.side);
    let new_levels = add_to_levels(old_levels, o);
    let m2 = insert_book(m, o);
    assert(levels_of(m2, o.side) == new_levels);
    assert(levels_of(m2, opposite(o.side)) == levels_of(m, opposite(o.side)));
    let l = new_levels[o.price];
    if old_levels.contains_key(o.price) {
        lemma_sum_qty_push(old_levels[o.price].orders, o);
    } else {
        lemma_sum_qty_push(Seq::<OrderModel>::empty(), o);
        assert(seq![o] =~= Seq::<OrderModel>::empty().push(o));
    }
    assert(level_ok(l, o.price, o.side));
    assert(side_ok(new_levels, o.side));
    assert forall|id: u64| #[trigger] m2.locations.contains_key(id) implies {
        let (side, price) = m2.locations[id];
        &&& levels_of(m2, side).contains_key(price)
        &&& has_id(levels_of(m2, side)[price].orders, id)
    } by {
        let (side, price) = m2.locations[id];
        if id == o.id {
            assert(l.orders[l.orders.len() - 1].id == id);
        } else {
            assert(m.locations.contains_key(id));
            let k = choose|k: int|
                0 <= k < levels_of(m, side)[price].orders.len()
                    && #[trigger] levels_of(m, side)[price].orders[k].id == id;
            if side == o.side && price == o.price {
                assert(l.orders[k].id == id);
            }
        }
    }
    match o.side {
        Side::Buy => {},
        Side::Sell => {},
    }
}

/// Cancelling a known order keeps the book sound.
pub proof fn lemma_cancel_ok(m: BookModel, id: u64)
    requires
        book_ok(m),
        m.locations.contains_key(id),
    ensures
        book_ok(cancel_book(m, id)),
{
    let (side, price) = m.locations[id];
    let levels = levels_of(m, side);
    let l = levels[price];
    let i = first_position(l.orders, id);
    let k0 = choose|k: int| 0 <= k < l.orders.len() && #[trigger] l.orders[k].id == id;
    assert(exists|i: int| is_first_position(l.orders, id, i)) by {
        lemma_first_position_exists(l.orders, id, k0);
    }
    assert(is_first_position(l.orders, id, i));
    let rest = l.orders.remove(i);
    let new_levels = remove_from_levels(levels, price, id);
    let m2 = cancel_book(m, id);
    assert(levels_of(m2, side) == new_levels);
    assert(levels_of(m2, opposite(side)) == levels_of(m, opposite(side)));
    lemma_sum_qty_remove(l.orders, i);
    lemma_sum_qty_nonneg(rest);
    if rest.len() > 0 {
        let nl = new_levels[price];
        assert forall|j: int| 0 <= j < nl.orders.len() implies (#[trigger] nl.orders[j]).price
            == price && nl.orders[j].side == side by {
            if j < i {
                assert(nl.orders[j] == l.orders[j]);
            } else {
                assert(nl.orders[j] == l.orders[j + 1]);
            }
        }
        assert(level_ok(nl, price, side));
    }
    assert(side_ok(new_levels, side));
    assert forall|id2: u64| #[trigger] m2.locations.contains_key(id2) implies {
        let (side2, price2) = m2.locations[id2];
        &&& levels_of(m2, side2).contains_key(price2)
        &&& has_id(levels_of(m2, side2)[price2].orders, id2)
    } by {
        let (side2, price2) = m2.locations[id2];
        assert(m.locations.contains_key(id2));
        if side2 == side && price2 == price {
            let k = choose|k: int| 0 <= k < l.orders.len() && #[trigger] l.orders[k].id == id2;
            assert(k != i);
            if k < i {
                assert(rest[k].id == id2);
            } else {
                assert(rest[k - 1].id == id2);
            }
        }
    }
}

/// An id that occurs in a queue has a first position.
pub proof fn lemma_first_position_exists(orders: Seq<OrderModel>, id: u64, k: int)
    requires
        0 <= k < orders.len(),
        orders[k].id == id,
    ensures
        exists|i: int| is_first_position(orders, id, i),
    decreases k,
{
    if forall|j: int| 0 <= j < k ==> #[trigger] orders[j].id != id {
        assert(is_first_position(orders, id, k));
    } else {
        let j = choose|j: int| 0 <= j < k && #[trigger] orders[j].id == id;
        lemma_first_position_exists(orders, id, j);
    }
}


/// The result of matching against the level at the best price of `opp`.
pub open spec fn best_level_fill(
    opp: Map<u64, LevelModel>,
    side: Side,
    incoming_id: u64,
    qty: u64,
) -> LevelFill {
    let level = opp[best_price(opp.dom(), side)];
    fill_level(level.orders, level.total, incoming_id, qty)
}

/// The levels `opp` after matching against the level at their best price:
/// that level as matching left it, or gone when matching emptied it.
pub open spec fn levels_after_best(
    opp: Map<u64, LevelModel>,
    side: Side,
    incoming_id: u64,
    qty: u64,
) -> Map<u64, LevelModel> {
    let best = best_price(opp.dom(), side);
    let f = best_level_fill(opp, side, incoming_id, qty);
    if f.rest.len() == 0 {
        opp.remove(best)
    } else {
        opp.insert(best, LevelModel { orders: f.rest, total: f.total, ..opp[best] })
    }
}

/// The book after matching an incoming order of `side` against the level at
/// the best price of the opposite side, the locations of the orders filled
/// there forgotten.
pub open spec fn book_after_best(m: BookModel, side: Side, incoming_id: u64, qty: u64) -> BookModel {
    let opp = levels_of(m, opposite(side));
    let f = best_level_fill(opp, side, incoming_id, qty);
    BookModel {
        locations: m.locations.remove_keys(f.filled_ids.to_set()),
        ..with_levels(m, opposite(side), levels_after_best(opp, side, incoming_id, qty))
    }
}

/// Matching against the best level of a sound book leaves it sound.
pub proof fn lemma_best_level_ok(m: BookModel, side: Side, incoming_id: u64, qty: u64)
    requires
        book_ok(m),
        !levels_of(m, opposite(side)).dom().is_empty(),
    ensures
        book_ok(book_after_best(m, side, incoming_id, qty)),
{
    let os = opposite(side);
    let opp = levels_of(m, os);
    let best = best_price(opp.dom(), side);
    let level = opp[best];
    let f = best_level_fill(opp, side, incoming_id, qty);
    let n = f.filled_ids.len();
    let new_opp = levels_after_best(opp, side, incoming_id, qty);
    let m2 = book_after_best(m, side, incoming_id, qty);
    assert(side_ok(opp, os));
    lemma_best_price(opp.dom(), side);
    assert(level_ok(level, best, os));
    lemma_fill_level(level.orders, level.total, incoming_id, qty);
    assert(levels_of(m2, os) == new_opp);
    assert(levels_of(m2, side) == levels_of(m, side));
    if f.rest.len() > 0 {
        let nl = new_opp[best];
        assert forall|j: int| 0 <= j < nl.orders.len() implies (#[trigger] nl.orders[j]).price
            == best && nl.orders[j].side == os by {
            assert(same_order(f.rest[j], level.orders[n + j]));
        }
        assert(level_ok(nl, best, os));
    }
    assert(side_ok(new_opp, os));
    assert forall|id2: u64| #[trigger] m2.locations.contains_key(id2) implies {
        let (side2, price2) = m2.locations[id2];
        &&& levels_of(m2, side2).contains_key(price2)
        &&& has_id(levels_of(m2, side2)[price2].orders, id2)
    } by {
        let (side2, price2) = m2.locations[id2];
        assert(m.locations.contains_key(id2));
        assert(!f.filled_ids.to_set().contains(id2));
        if side2 == os && price2 == best {
            let k = choose|k: int| 0 <= k < level.orders.len() && #[trigger] level.orders[k].id
                == id2;
            if k < n {
                assert(f.filled_ids[k] == id2);
                assert(f.filled_ids.contains(id2));
            } else {
                assert(same_order(f.rest[k - n], level.orders[n + (k - n)]));
                assert(f.rest[k - n].id == id2);
            }
        }
    }
    assert(book_ok(m2)) by {
        match side {
            Side::Buy => {},
            Side::Sell => {},
        }
    }
}

/// One round of [`fill_book`]: matching against the best level, then what
/// matching the rest of the order against the remaining levels yields.
pub proof fn lemma_fill_book_step(
    opp: Map<u64, LevelModel>,
    side: Side,
    price: u64,
    incoming_id: u64,
    qty: u64,
)
    requires
        qty > 0,
        crosses(opp, side, price),
        opp.dom().finite(),
    ensures
        ({
            let f = best_level_fill(opp, side, incoming_id, qty);
            let whole = fill_book(opp, side, price, incoming_id, qty);
            let next = fill_book(
                levels_after_best(opp, side, incoming_id, qty),
                side,
                price,
                incoming_id,
                f.remaining,
            );
            &&& whole.trades == f.trades + next.trades
            &&& whole.filled_ids == f.filled_ids + next.filled_ids
            &&& whole.levels == next.levels
            &&& whole.remaining == next.remaining
        }),
{
    let level = opp[best_price(opp.dom(), side)];
    let f = best_level_fill(opp, side, incoming_id, qty);
    lemma_fill_level(level.orders, level.total, incoming_id, qty);
    if f.rest.len() > 0 {
        assert(f.remaining == 0);
        assert(f.trades + Seq::<TradeModel>::empty() =~= f.trades);
        assert(f.filled_ids + Seq::<u64>::empty() =~= f.filled_ids);
    }
}

/// Forgetting the keys of `a`, then those of `b`, forgets the keys of `a + b`.
pub proof fn lemma_remove_keys_append<V>(m: Map<u64, V>, a: Seq<u64>, b: Seq<u64>)
    ensures
        m.remove_keys(a.to_set()).remove_keys(b.to_set()) == m.remove_keys((a + b).to_set()),
{
    assert forall|x: u64| (a + b).to_set().contains(x) <==> (a.to_set().contains(x)
        || b.to_set().contains(x)) by {
        if (a + b).contains(x) {
            let i = choose|i: int| 0 <= i < (a + b).len() && (a + b)[i] == x;
            if i < a.len() {
                assert(a[i] == x);
            } else {
                assert(b[i - a.len()] == x);
            }
        }
        if a.contains(x) {
            let i = choose|i: int| 0 <= i < a.len() && a[i] == x;
            assert((a + b)[i] == x);
        }
        if b.contains(x) {
            let i = choose|i: int| 0 <= i < b.len() && b[i] == x;
            assert((a + b)[a.len() + i] == x);
        }
    }
    assert(m.remove_keys(a.to_set()).remove_keys(b.to_set()) =~= m.remove_keys((a + b).to_set()));
}

} // verus!

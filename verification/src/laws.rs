//! Laws of the order book, stated over the model that the operations'
//! contracts use ([`process_fill`], [`process_book`], [`insert_book`],
//! [`cancel_book`]) and proved.
use crate::matching::{
    add_to_levels, best_price, book_ok, cancel_book, crosses, fill_book, fill_level, insert_book,
    is_first_position, lemma_best_price, lemma_fill_level, lemma_first_position_unique,
    lemma_sum_qty_nonneg, lemma_traded_qty_append, level_ok, level_total, levels_of, opposite,
    process_book, process_fill, remove_from_levels, same_order, side_ok, sum_qty, traded_qty,
    BookModel, LevelModel, first_position, has_id, lemma_first_position_exists,
};
use crate::price_map::{
    highest, is_highest, is_lowest, lemma_highest, lemma_highest_unique, lemma_lowest,
    lemma_lowest_unique, lowest,
};
use crate::types::{OrderModel, Side, TradeModel};
use vstd::prelude::*;

verus! {

// ---------------------------------------------------------------------------
// Matching
// ---------------------------------------------------------------------------

proof fn lemma_fill_book_conserves(
    opp: Map<u64, LevelModel>,
    side: Side,
    price: u64,
    incoming_id: u64,
    qty: u64,
)
    ensures
        traded_qty(fill_book(opp, side, price, incoming_id, qty).trades) + fill_book(
            opp,
            side,
            price,
            incoming_id,
            qty,
        ).remaining == qty,
    decreases opp.dom().len(),
{
    if qty > 0 && crosses(opp, side, price) && opp.dom().finite() {
        let best = best_price(opp.dom(), side);
        let level = opp[best];
        let f = fill_level(level.orders, level.total, incoming_id, qty);
        lemma_fill_level(level.orders, level.total, incoming_id, qty);
        if f.rest.len() == 0 {
            lemma_best_price(opp.dom(), side);
            let next = fill_book(opp.remove(best), side, price, incoming_id, f.remaining);
            lemma_fill_book_conserves(opp.remove(best), side, price, incoming_id, f.remaining);
            lemma_traded_qty_append(f.trades, next.trades);
        }
    } else {
        assert(traded_qty(Seq::<TradeModel>::empty()) == 0);
    }
}

/// Every unit of an incoming order is either traded or left over: the
/// quantities of the trades and the quantity left add up to the order's.
pub proof fn law_quantity_conserved(m: BookModel, order: OrderModel)
    ensures
        traded_qty(process_fill(m, order).trades) + process_fill(m, order).remaining
            == order.quantity,
{
    lemma_fill_book_conserves(
        levels_of(m, opposite(order.side)),
        order.side,
        order.price,
        order.id,
        order.quantity,
    );
}

/// The trade price `p` respects the limit `price` of an incoming order of
/// `side`: a buy pays at most its limit, a sell receives at least its limit.
pub open spec fn within_limit(side: Side, price: u64, p: u64) -> bool {
    match side {
        Side::Buy => p <= price,
        Side::Sell => p >= price,
    }
}

/// The trade price `a` comes no later than `b` in the order in which an
/// incoming order of `side` meets prices: ascending for a buy, descending
/// for a sell.
pub open spec fn price_not_after(side: Side, a: u64, b: u64) -> bool {
    match side {
        Side::Buy => a <= b,
        Side::Sell => a >= b,
    }
}

proof fn lemma_side_ok_remove(levels: Map<u64, LevelModel>, side: Side, p: u64)
    requires
        side_ok(levels, side),
    ensures
        side_ok(levels.remove(p), side),
{
}

proof fn lemma_fill_book_prices(
    opp: Map<u64, LevelModel>,
    side: Side,
    price: u64,
    incoming_id: u64,
    qty: u64,
)
    requires
        side_ok(opp, opposite(side)),
    ensures
        ({
            let f = fill_book(opp, side, price, incoming_id, qty);
            &&& forall|j: int|
                0 <= j < f.trades.len() ==> opp.dom().contains(#[trigger] f.trades[j].price)
                    && within_limit(side, price, f.trades[j].price)
            &&& forall|i: int, j: int|
                0 <= i < j < f.trades.len() ==> price_not_after(
                    side,
                    #[trigger] f.trades[i].price,
                    #[trigger] f.trades[j].price,
                )
        }),
    decreases opp.dom().len(),
{
    let f = fill_book(opp, side, price, incoming_id, qty);
    if qty > 0 && crosses(opp, side, price) && opp.dom().finite() {
        let best = best_price(opp.dom(), side);
        let level = opp[best];
        let lf = fill_level(level.orders, level.total, incoming_id, qty);
        lemma_fill_level(level.orders, level.total, incoming_id, qty);
        lemma_best_price(opp.dom(), side);
        assert(level_ok(level, best, opposite(side)));
        assert forall|j: int| 0 <= j < lf.trades.len() implies (#[trigger] lf.trades[j]).price
            == best by {
            assert(level.orders[j].price == best);
        }
        assert(within_limit(side, price, best)) by {
            match side {
                Side::Buy => {},
                Side::Sell => {},
            }
        }
        if lf.rest.len() == 0 {
            let rest_levels = opp.remove(best);
            let next = fill_book(rest_levels, side, price, incoming_id, lf.remaining);
            lemma_side_ok_remove(opp, opposite(side), best);
            lemma_fill_book_prices(rest_levels, side, price, incoming_id, lf.remaining);
            let n = lf.trades.len();
            assert forall|j: int| 0 <= j < f.trades.len() implies opp.dom().contains(
                #[trigger] f.trades[j].price,
            ) && within_limit(side, price, f.trades[j].price) by {
                if j >= n {
                    assert(f.trades[j] == next.trades[j - n]);
                }
            }
            assert forall|i: int, j: int| 0 <= i < j < f.trades.len() implies price_not_after(
                side,
                #[trigger] f.trades[i].price,
                #[trigger] f.trades[j].price,
            ) by {
                if j < n {
                } else if i < n {
                    assert(f.trades[j] == next.trades[j - n]);
                    assert(rest_levels.dom().contains(next.trades[j - n].price));
                    match side {
                        Side::Buy => {},
                        Side::Sell => {},
                    }
                } else {
                    assert(f.trades[i] == next.trades[i - n]);
                    assert(f.trades[j] == next.trades[j - n]);
                }
            }
        }
    }
}

/// Matching respects the incoming order's limit: in a sound book, every
/// trade is at a price of the opposite side that the limit reaches.
pub proof fn law_trades_within_limit(m: BookModel, order: OrderModel)
    requires
        book_ok(m),
    ensures
        forall|j: int|
            0 <= j < process_fill(m, order).trades.len() ==> {
                let p = (#[trigger] process_fill(m, order).trades[j]).price;
                &&& levels_of(m, opposite(order.side)).dom().contains(p)
                &&& within_limit(order.side, order.price, p)
            },
{
    assert(side_ok(levels_of(m, opposite(order.side)), opposite(order.side))) by {
        match order.side {
            Side::Buy => {},
            Side::Sell => {},
        }
    }
    lemma_fill_book_prices(
        levels_of(m, opposite(order.side)),
        order.side,
        order.price,
        order.id,
        order.quantity,
    );
}

/// Best price first: in a sound book, a buy meets ask prices in ascending
/// order and a sell meets bid prices in descending order.
pub proof fn law_best_price_first(m: BookModel, order: OrderModel)
    requires
        book_ok(m),
    ensures
        forall|i: int, j: int|
            0 <= i < j < process_fill(m, order).trades.len() ==> price_not_after(
                order.side,
                #[trigger] process_fill(m, order).trades[i].price,
                #[trigger] process_fill(m, order).trades[j].price,
            ),
{
    assert(side_ok(levels_of(m, opposite(order.side)), opposite(order.side))) by {
        match order.side {
            Side::Buy => {},
            Side::Sell => {},
        }
    }
    lemma_fill_book_prices(
        levels_of(m, opposite(order.side)),
        order.side,
        order.price,
        order.id,
        order.quantity,
    );
}

proof fn lemma_fill_book_leftover(
    opp: Map<u64, LevelModel>,
    side: Side,
    price: u64,
    incoming_id: u64,
    qty: u64,
)
    requires
        opp.dom().finite(),
    ensures
        fill_book(opp, side, price, incoming_id, qty).remaining > 0 ==> !crosses(
            fill_book(opp, side, price, incoming_id, qty).levels,
            side,
            price,
        ),
    decreases opp.dom().len(),
{
    if qty > 0 && crosses(opp, side, price) && opp.dom().finite() {
        let best = best_price(opp.dom(), side);
        let level = opp[best];
        let f = fill_level(level.orders, level.total, incoming_id, qty);
        lemma_fill_level(level.orders, level.total, incoming_id, qty);
        if f.rest.len() == 0 {
            lemma_best_price(opp.dom(), side);
            lemma_fill_book_leftover(opp.remove(best), side, price, incoming_id, f.remaining);
        }
    }
}

/// Matching goes on while it can: when quantity is left, the order no
/// longer crosses what is left of the opposite side.
pub proof fn law_leftover_does_not_cross(m: BookModel, order: OrderModel)
    requires
        book_ok(m),
    ensures
        process_fill(m, order).remaining > 0 ==> !crosses(
            levels_of(process_book(m, order), opposite(order.side)),
            order.side,
            order.price,
        ),
{
    let os = opposite(order.side);
    assert(levels_of(m, os).dom().finite()) by {
        match order.side {
            Side::Buy => {},
            Side::Sell => {},
        }
    }
    lemma_fill_book_leftover(levels_of(m, os), order.side, order.price, order.id, order.quantity);
    assert(levels_of(process_book(m, order), os) == process_fill(m, order).levels) by {
        match order.side {
            Side::Buy => {},
            Side::Sell => {},
        }
    }
}

/// An order that does not cross, or has no quantity, trades nothing and
/// leaves the book as it was.
pub proof fn law_no_cross_no_change(m: BookModel, order: OrderModel)
    requires
        order.quantity == 0 || !crosses(
            levels_of(m, opposite(order.side)),
            order.side,
            order.price,
        ),
    ensures
        process_fill(m, order).trades.len() == 0,
        process_fill(m, order).remaining == order.quantity,
        process_book(m, order) == m,
{
    let f = process_fill(m, order);
    assert(f.filled_ids.to_set() =~= Set::<u64>::empty());
    assert(m.locations.remove_keys(f.filled_ids.to_set()) =~= m.locations);
    assert(process_book(m, order) =~= m) by {
        match order.side {
            Side::Buy => {},
            Side::Sell => {},
        }
    }
}

/// Matching leaves the incoming order's own side alone, and a resting order
/// that was filled completely can no longer be found (nor cancelled).
pub proof fn law_matching_scope(m: BookModel, order: OrderModel)
    ensures
        levels_of(process_book(m, order), order.side) == levels_of(m, order.side),
        forall|k: int|
            0 <= k < process_fill(m, order).filled_ids.len() ==> !process_book(
                m,
                order,
            ).locations.contains_key(#[trigger] process_fill(m, order).filled_ids[k]),
{
    let f = process_fill(m, order);
    assert forall|k: int| 0 <= k < f.filled_ids.len() implies !process_book(
        m,
        order,
    ).locations.contains_key(#[trigger] f.filled_ids[k]) by {
        assert(f.filled_ids.contains(f.filled_ids[k]));
    }
    match order.side {
        Side::Buy => {},
        Side::Sell => {},
    }
}

// ---------------------------------------------------------------------------
// Insertion and cancellation
// ---------------------------------------------------------------------------

/// Cancelling what was just rested undoes the insertion, when no other order
/// with that id rested at that price nor had a known location: the book is
/// back to what it was.
pub proof fn law_cancel_undoes_insert(m: BookModel, order: OrderModel)
    requires
        book_ok(m),
        level_total(m, order.side, order.price) + order.quantity <= u64::MAX,
        !m.locations.contains_key(order.id),
        levels_of(m, order.side).contains_key(order.price) ==> forall|i: int|
            0 <= i < levels_of(m, order.side)[order.price].orders.len()
                ==> #[trigger] levels_of(m, order.side)[order.price].orders[i].id != order.id,
    ensures
        cancel_book(insert_book(m, order), order.id) == m,
{
    let side = order.side;
    let p = order.price;
    let levels = levels_of(m, side);
    let m2 = insert_book(m, order);
    let added = add_to_levels(levels, order);
    assert(levels_of(m2, side) == added);
    assert(m2.locations.contains_key(order.id));
    assert(m2.locations[order.id] == (side, p));
    let l2 = added[p];
    let i = l2.orders.len() - 1;
    if levels.contains_key(p) {
        let l = levels[p];
        assert(is_first_position(l2.orders, order.id, i));
        lemma_first_position_unique(l2.orders, order.id, i);
        assert(l2.orders.remove(i) =~= l.orders);
        assert(level_ok(l, p, side)) by {
            match side {
                Side::Buy => {},
                Side::Sell => {},
            }
        }
        assert(remove_from_levels(added, p, order.id) =~= levels);
    } else {
        assert(is_first_position(l2.orders, order.id, 0));
        lemma_first_position_unique(l2.orders, order.id, 0);
        assert(l2.orders.remove(0) =~= Seq::<OrderModel>::empty());
        assert(remove_from_levels(added, p, order.id) =~= levels);
    }
    assert(m2.locations.remove(order.id) =~= m.locations);
    assert(cancel_book(m2, order.id) =~= m) by {
        match side {
            Side::Buy => {},
            Side::Sell => {},
        }
    }
}

/// Resting a buy order makes its price the best bid when it beats the best
/// bid or there was none; otherwise the best bid stays.
pub proof fn law_best_bid_after_insert(m: BookModel, order: OrderModel)
    requires
        m.bids.dom().finite(),
        order.side == Side::Buy,
    ensures
        highest(insert_book(m, order).bids.dom()) == if m.bids.dom().is_empty() {
            order.price
        } else if order.price > highest(m.bids.dom()) {
            order.price
        } else {
            highest(m.bids.dom())
        },
{
    let d = m.bids.dom();
    let d2 = insert_book(m, order).bids.dom();
    assert(d2 =~= d.insert(order.price));
    if d.is_empty() {
        assert(is_highest(d2, order.price));
        lemma_highest_unique(d2, order.price);
    } else {
        crate::price_map::lemma_nonempty_len(d);
        lemma_highest(d);
        let h = highest(d);
        if order.price > h {
            assert(is_highest(d2, order.price));
            lemma_highest_unique(d2, order.price);
        } else {
            assert(is_highest(d2, h));
            lemma_highest_unique(d2, h);
        }
    }
}

/// Resting a sell order makes its price the best ask when it beats the best
/// ask or there was none; otherwise the best ask stays.
pub proof fn law_best_ask_after_insert(m: BookModel, order: OrderModel)
    requires
        m.asks.dom().finite(),
        order.side == Side::Sell,
    ensures
        lowest(insert_book(m, order).asks.dom()) == if m.asks.dom().is_empty() {
            order.price
        } else if order.price < lowest(m.asks.dom()) {
            order.price
        } else {
            lowest(m.asks.dom())
        },
{
    let d = m.asks.dom();
    let d2 = insert_book(m, order).asks.dom();
    assert(d2 =~= d.insert(order.price));
    if d.is_empty() {
        assert(is_lowest(d2, order.price));
        lemma_lowest_unique(d2, order.price);
    } else {
        crate::price_map::lemma_nonempty_len(d);
        lemma_lowest(d);
        let h = lowest(d);
        if order.price < h {
            assert(is_lowest(d2, order.price));
            lemma_lowest_unique(d2, order.price);
        } else {
            assert(is_lowest(d2, h));
            lemma_lowest_unique(d2, h);
        }
    }
}

/// Resting an order leaves the other side of the book alone, and makes the
/// order cancellable: its id is known at its side and price.
pub proof fn law_insert_scope(m: BookModel, order: OrderModel)
    ensures
        levels_of(insert_book(m, order), opposite(order.side)) == levels_of(
            m,
            opposite(order.side),
        ),
        insert_book(m, order).locations.contains_key(order.id),
        insert_book(m, order).locations[order.id] == (order.side, order.price),
{
    match order.side {
        Side::Buy => {},
        Side::Sell => {},
    }
}

/// Cancelling leaves the side other than the cancelled order's alone, and
/// cancelling an unknown id changes nothing.
pub proof fn law_cancel_scope(m: BookModel, id: u64)
    ensures
        !m.locations.contains_key(id) ==> cancel_book(m, id) == m,
        m.locations.contains_key(id) ==> levels_of(cancel_book(m, id), opposite(m.locations[id].0))
            == levels_of(m, opposite(m.locations[id].0)),
        m.locations.contains_key(id) ==> !cancel_book(m, id).locations.contains_key(id),
{
    if m.locations.contains_key(id) {
        match m.locations[id].0 {
            Side::Buy => {},
            Side::Sell => {},
        }
    }
}


// ---------------------------------------------------------------------------
// Resting what is left of a processed order
// ---------------------------------------------------------------------------

/// The book is not crossed: when both sides have levels, the highest bid is
/// below the lowest ask.
pub open spec fn uncrossed(m: BookModel) -> bool {
    !m.bids.dom().is_empty() && !m.asks.dom().is_empty() ==> highest(m.bids.dom()) < lowest(
        m.asks.dom(),
    )
}

/// The order `order` with what matching left of it.
pub open spec fn leftover_order(m: BookModel, order: OrderModel) -> OrderModel {
    OrderModel { quantity: process_fill(m, order).remaining, ..order }
}

proof fn lemma_fill_book_levels_within(
    opp: Map<u64, LevelModel>,
    side: Side,
    price: u64,
    incoming_id: u64,
    qty: u64,
)
    ensures
        fill_book(opp, side, price, incoming_id, qty).levels.dom().subset_of(opp.dom()),
    decreases opp.dom().len(),
{
    if qty > 0 && crosses(opp, side, price) && opp.dom().finite() {
        let best = best_price(opp.dom(), side);
        let level = opp[best];
        let f = fill_level(level.orders, level.total, incoming_id, qty);
        lemma_best_price(opp.dom(), side);
        if f.rest.len() == 0 {
            lemma_fill_book_levels_within(opp.remove(best), side, price, incoming_id, f.remaining);
        }
    }
}

/// Resting what is left of a processed order keeps an uncrossed book
/// uncrossed, leaves the opposite side as matching left it, and makes the
/// order cancellable, where the level it joins has room for it in its
/// running total.
pub proof fn law_resting_leftover(m: BookModel, order: OrderModel)
    requires
        book_ok(m),
        uncrossed(m),
        process_fill(m, order).remaining > 0,
        level_total(process_book(m, order), order.side, order.price) + process_fill(
            m,
            order,
        ).remaining <= u64::MAX,
    ensures
        ({
            let after = insert_book(process_book(m, order), leftover_order(m, order));
            &&& uncrossed(after)
            &&& levels_of(after, opposite(order.side)) == levels_of(
                process_book(m, order),
                opposite(order.side),
            )
            &&& after.locations.contains_key(order.id)
            &&& after.locations[order.id] == (order.side, order.price)
        }),
{
    let f = process_fill(m, order);
    let m1 = process_book(m, order);
    let r = leftover_order(m, order);
    let after = insert_book(m1, r);
    let os = opposite(order.side);
    law_leftover_does_not_cross(m, order);
    law_insert_scope(m1, r);
    lemma_fill_book_levels_within(
        levels_of(m, os),
        order.side,
        order.price,
        order.id,
        order.quantity,
    );
    match order.side {
        Side::Buy => {
            assert(m1.bids == m.bids);
            assert(m1.asks == f.levels);
            law_best_bid_after_insert(m1, r);
            if !after.bids.dom().is_empty() && !after.asks.dom().is_empty() {
                let a1 = m1.asks.dom();
                crate::price_map::lemma_nonempty_len(a1);
                lemma_lowest(a1);
                assert(order.price < lowest(a1));
                if !m.bids.dom().is_empty() {
                    crate::price_map::lemma_nonempty_len(m.asks.dom());
                    lemma_lowest(m.asks.dom());
                    assert(m.asks.dom().contains(lowest(a1)));
                    assert(highest(m.bids.dom()) < lowest(m.asks.dom()));
                }
            }
        },
        Side::Sell => {
            assert(m1.asks == m.asks);
            assert(m1.bids == f.levels);
            law_best_ask_after_insert(m1, r);
            if !after.bids.dom().is_empty() && !after.asks.dom().is_empty() {
                let b1 = m1.bids.dom();
                crate::price_map::lemma_nonempty_len(b1);
                lemma_highest(b1);
                assert(order.price > highest(b1));
                if !m.asks.dom().is_empty() {
                    crate::price_map::lemma_nonempty_len(m.bids.dom());
                    lemma_highest(m.bids.dom());
                    assert(m.bids.dom().contains(highest(b1)));
                    assert(highest(m.bids.dom()) < lowest(m.asks.dom()));
                }
            }
        },
    }
}


// ---------------------------------------------------------------------------
// What stays and what leaves a queue
// ---------------------------------------------------------------------------

/// `new` is what is left of the queue `old` after orders leave it from the
/// front: the last `new.len()` orders of `old`, in their order, the first of
/// them possibly with less quantity.
pub open spec fn queue_suffix(old: Seq<OrderModel>, new: Seq<OrderModel>) -> bool {
    let d = old.len() - new.len();
    &&& new.len() <= old.len()
    &&& forall|k: int| 0 < k < new.len() ==> #[trigger] new[k] == old[d + k]
    &&& new.len() > 0 ==> same_order(new[0], old[d]) && new[0].quantity <= old[d].quantity
}

/// Matching within a level conserves the resting side and keeps its order:
/// what rested before is what rests afterwards plus what was traded, the
/// level's running total drops by exactly the traded quantity, the orders
/// left are the back of the old queue in their order, and a resting order
/// filled in part has its quantity lowered by exactly its trade's quantity.
pub proof fn law_level_fill_conserves(
    orders: Seq<OrderModel>,
    total: u64,
    incoming_id: u64,
    qty: u64,
)
    ensures
        ({
            let f = fill_level(orders, total, incoming_id, qty);
            let n = f.filled_ids.len() as int;
            &&& sum_qty(orders) == sum_qty(f.rest) + traded_qty(f.trades)
            &&& total == sum_qty(orders) ==> f.total == total - traded_qty(f.trades)
            &&& queue_suffix(orders, f.rest)
            &&& f.rest.len() + n == orders.len()
            &&& f.trades.len() > n ==> f.rest.len() > 0 && f.trades.len() == n + 1
                && f.rest[0].quantity == orders[n].quantity - f.trades[n].quantity
            &&& f.trades.len() == n && f.rest.len() > 0 ==> f.rest[0] == orders[n]
        }),
    decreases orders.len(),
{
    let f = fill_level(orders, total, incoming_id, qty);
    lemma_fill_level(orders, total, incoming_id, qty);
    if qty == 0 || orders.len() == 0 {
        assert(traded_qty(f.trades) == 0);
    } else {
        let front = orders[0];
        if qty < front.quantity {
            let rest = f.rest;
            assert(rest.drop_first() =~= orders.drop_first());
            assert(f.trades.drop_first() =~= Seq::<TradeModel>::empty());
            assert(traded_qty(f.trades.drop_first()) == 0);
        } else {
            let next = fill_level(
                orders.drop_first(),
                (total - front.quantity) as u64,
                incoming_id,
                (qty - front.quantity) as u64,
            );
            law_level_fill_conserves(
                orders.drop_first(),
                (total - front.quantity) as u64,
                incoming_id,
                (qty - front.quantity) as u64,
            );
            lemma_sum_qty_nonneg(orders.drop_first());
            assert(f.trades.drop_first() =~= next.trades);
            let n = f.filled_ids.len() as int;
            let d = orders.len() - f.rest.len();
            assert forall|k: int| 0 < k < f.rest.len() implies #[trigger] f.rest[k] == orders[d
                + k] by {
                assert(orders.drop_first()[(d - 1) + k] == orders[d + k]);
            }
            if f.rest.len() > 0 {
                assert(orders.drop_first()[d - 1] == orders[d]);
            }
            if f.trades.len() > n {
                assert(f.trades[n] == next.trades[n - 1]);
                assert(orders.drop_first()[n - 1] == orders[n as int]);
            }
            if f.trades.len() == n && f.rest.len() > 0 {
                assert(orders.drop_first()[n - 1] == orders[n as int]);
            }
        }
    }
}

/// Resting an order appends it at the back of the queue at its price: the
/// queue afterwards is the old one (empty where there was no level)
/// followed by the new order, so the orders already there keep their time
/// priority; the level's total grows by the order's quantity, and every
/// other level of the book stays as it was.
pub proof fn law_insert_appends(m: BookModel, order: OrderModel)
    requires
        level_total(m, order.side, order.price) + order.quantity <= u64::MAX,
    ensures
        ({
            let before = levels_of(m, order.side);
            let after = levels_of(insert_book(m, order), order.side);
            let old_queue = if before.contains_key(order.price) {
                before[order.price].orders
            } else {
                Seq::<OrderModel>::empty()
            };
            &&& after.contains_key(order.price)
            &&& after[order.price].orders.len() == old_queue.len() + 1
            &&& forall|i: int|
                0 <= i < old_queue.len() ==> #[trigger] after[order.price].orders[i]
                    == old_queue[i]
            &&& after[order.price].orders[old_queue.len() as int] == order
            &&& after[order.price].total == level_total(m, order.side, order.price)
                + order.quantity
            &&& forall|p: u64| p != order.price ==> #[trigger] after.contains_key(p)
                == before.contains_key(p) && (before.contains_key(p) ==> after[p] == before[p])
            &&& levels_of(insert_book(m, order), opposite(order.side)) == levels_of(
                m,
                opposite(order.side),
            )
        }),
{
    match order.side {
        Side::Buy => {},
        Side::Sell => {},
    }
    assert(seq![order][0] == order);
}

/// Cancelling a known order removes exactly the first order with that id
/// from the queue its location names and nothing else moves: the queue
/// afterwards is the old queue with that one element removed, the others in
/// their relative order (the level is gone when that was its only order),
/// and every other level stays as it was.
pub proof fn law_cancel_removes_one(m: BookModel, id: u64)
    requires
        book_ok(m),
        m.locations.contains_key(id),
    ensures
        ({
            let (side, price) = m.locations[id];
            let q = levels_of(m, side)[price].orders;
            let i = first_position(q, id);
            let after = levels_of(cancel_book(m, id), side);
            &&& 0 <= i < q.len()
            &&& q[i].id == id
            &&& forall|j: int| 0 <= j < i ==> #[trigger] q[j].id != id
            &&& q.len() == 1 ==> !after.contains_key(price)
            &&& q.len() > 1 ==> {
                &&& after.contains_key(price)
                &&& after[price].orders.len() == q.len() - 1
                &&& forall|j: int| 0 <= j < i ==> #[trigger] after[price].orders[j] == q[j]
                &&& forall|j: int|
                    i <= j < q.len() - 1 ==> #[trigger] after[price].orders[j] == q[j + 1]
                &&& after[price].total == levels_of(m, side)[price].total - q[i].quantity
            }
            &&& forall|p: u64| p != price ==> #[trigger] after.contains_key(p)
                == levels_of(m, side).contains_key(p) && (after.contains_key(p) ==> after[p]
                == levels_of(m, side)[p])
            &&& levels_of(cancel_book(m, id), opposite(side)) == levels_of(m, opposite(side))
            &&& !cancel_book(m, id).locations.contains_key(id)
        }),
{
    let (side, price) = m.locations[id];
    let q = levels_of(m, side)[price].orders;
    let k = choose|k: int| 0 <= k < q.len() && #[trigger] q[k].id == id;
    lemma_first_position_exists(q, id, k);
    let i0 = choose|i: int| is_first_position(q, id, i);
    lemma_first_position_unique(q, id, i0);
    let i = first_position(q, id);
    lemma_sum_qty_nonneg(q.remove(i));
    crate::matching::lemma_sum_qty_remove(q, i);
    match side {
        Side::Buy => {},
        Side::Sell => {},
    }
}


proof fn lemma_fill_book_queues(
    opp: Map<u64, LevelModel>,
    side: Side,
    price: u64,
    incoming_id: u64,
    qty: u64,
)
    ensures
        ({
            let f = fill_book(opp, side, price, incoming_id, qty);
            forall|p: u64| #[trigger]
                f.levels.contains_key(p) ==> opp.contains_key(p) && queue_suffix(
                    opp[p].orders,
                    f.levels[p].orders,
                )
        }),
    decreases opp.dom().len(),
{
    let f = fill_book(opp, side, price, incoming_id, qty);
    if qty > 0 && crosses(opp, side, price) && opp.dom().finite() {
        let best = best_price(opp.dom(), side);
        let level = opp[best];
        let lf = fill_level(level.orders, level.total, incoming_id, qty);
        lemma_best_price(opp.dom(), side);
        law_level_fill_conserves(level.orders, level.total, incoming_id, qty);
        if lf.rest.len() == 0 {
            let rest_levels = opp.remove(best);
            let next = fill_book(rest_levels, side, price, incoming_id, lf.remaining);
            lemma_fill_book_queues(rest_levels, side, price, incoming_id, lf.remaining);
            assert(f.levels == next.levels);
            assert forall|p: u64| #[trigger] f.levels.contains_key(p) implies opp.contains_key(p)
                && queue_suffix(opp[p].orders, f.levels[p].orders) by {
                assert(next.levels.contains_key(p));
                assert(rest_levels.contains_key(p));
                assert(rest_levels[p] == opp[p]);
            }
        } else {
            assert forall|p: u64| #[trigger] f.levels.contains_key(p) implies opp.contains_key(p)
                && queue_suffix(opp[p].orders, f.levels[p].orders) by {
                if p != best {
                    assert(f.levels[p] == opp[p]);
                } else {
                    assert(f.levels[p].orders == lf.rest);
                }
            }
        }
    } else {
        assert forall|p: u64| #[trigger] f.levels.contains_key(p) implies opp.contains_key(p)
            && queue_suffix(opp[p].orders, f.levels[p].orders) by {
            assert(f.levels[p] == opp[p]);
        }
    }
}

/// Processing an order keeps the relative order of what rests at every level
/// of the opposite side: each level left is one that was there, and its
/// queue is the unfilled back of the old queue in the same order, its first
/// order possibly lowered by a partial fill. No level is added.
pub proof fn law_process_keeps_queue_order(m: BookModel, order: OrderModel)
    ensures
        ({
            let before = levels_of(m, opposite(order.side));
            let after = levels_of(process_book(m, order), opposite(order.side));
            forall|p: u64| #[trigger]
                after.contains_key(p) ==> before.contains_key(p) && queue_suffix(
                    before[p].orders,
                    after[p].orders,
                )
        }),
{
    lemma_fill_book_queues(
        levels_of(m, opposite(order.side)),
        order.side,
        order.price,
        order.id,
        order.quantity,
    );
    match order.side {
        Side::Buy => {},
        Side::Sell => {},
    }
}

/// Some level of `levels` holds an order with id `id`.
pub open spec fn rests_in(levels: Map<u64, LevelModel>, id: u64) -> bool {
    exists|p: u64, i: int|
        levels.contains_key(p) && 0 <= i < levels[p].orders.len() && #[trigger] levels[p].orders[i].id
            == id
}

/// No id occurs twice among the orders of `levels`.
pub open spec fn ids_unique_in(levels: Map<u64, LevelModel>) -> bool {
    forall|p1: u64, i1: int, p2: u64, i2: int|
        #![trigger levels[p1].orders[i1], levels[p2].orders[i2]]
        levels.contains_key(p1) && levels.contains_key(p2) && 0 <= i1 < levels[p1].orders.len()
            && 0 <= i2 < levels[p2].orders.len() && levels[p1].orders[i1].id
            == levels[p2].orders[i2].id ==> p1 == p2 && i1 == i2
}

/// No id occurs twice among the resting orders of the book.
pub open spec fn ids_unique(m: BookModel) -> bool {
    &&& ids_unique_in(m.bids)
    &&& ids_unique_in(m.asks)
    &&& forall|id: u64| !(#[trigger] rests_in(m.bids, id) && rests_in(m.asks, id))
}

proof fn lemma_fill_book_filled_leave(
    opp: Map<u64, LevelModel>,
    side: Side,
    price: u64,
    incoming_id: u64,
    qty: u64,
)
    requires
        ids_unique_in(opp),
    ensures
        ({
            let f = fill_book(opp, side, price, incoming_id, qty);
            forall|j: int|
                0 <= j < f.filled_ids.len() ==> rests_in(opp, #[trigger] f.filled_ids[j])
                    && !rests_in(f.levels, f.filled_ids[j])
        }),
    decreases opp.dom().len(),
{
    let f = fill_book(opp, side, price, incoming_id, qty);
    if qty > 0 && crosses(opp, side, price) && opp.dom().finite() {
        let best = best_price(opp.dom(), side);
        let level = opp[best];
        let q = level.orders;
        let lf = fill_level(q, level.total, incoming_id, qty);
        let n = lf.filled_ids.len() as int;
        lemma_best_price(opp.dom(), side);
        lemma_fill_level(q, level.total, incoming_id, qty);
        law_level_fill_conserves(q, level.total, incoming_id, qty);
        if lf.rest.len() == 0 {
            let rest_levels = opp.remove(best);
            let next = fill_book(rest_levels, side, price, incoming_id, lf.remaining);
            assert(ids_unique_in(rest_levels));
            lemma_fill_book_filled_leave(rest_levels, side, price, incoming_id, lf.remaining);
            lemma_fill_book_queues(rest_levels, side, price, incoming_id, lf.remaining);
            assert forall|j: int| 0 <= j < f.filled_ids.len() implies rests_in(
                opp,
                #[trigger] f.filled_ids[j],
            ) && !rests_in(f.levels, f.filled_ids[j]) by {
                let id = f.filled_ids[j];
                if j < n {
                    assert(lf.filled_ids[j] == q[j].id);
                    assert(opp[best].orders[j].id == id);
                    if rests_in(f.levels, id) {
                        let (p, i) = choose|p: u64, i: int|
                            f.levels.contains_key(p) && 0 <= i < f.levels[p].orders.len()
                                && #[trigger] f.levels[p].orders[i].id == id;
                        let old_q = rest_levels[p].orders;
                        let new_q = f.levels[p].orders;
                        let d = old_q.len() - new_q.len();
                        assert(queue_suffix(old_q, new_q));
                        if i > 0 {
                            assert(new_q[i] == old_q[d + i]);
                        }
                        assert(old_q[d + i].id == id);
                        assert(opp[p].orders[d + i].id == opp[best].orders[j].id);
                    }
                } else {
                    assert(f.filled_ids[j] == next.filled_ids[j - n]);
                    let (p, i) = choose|p: u64, i: int|
                        rest_levels.contains_key(p) && 0 <= i < rest_levels[p].orders.len()
                            && #[trigger] rest_levels[p].orders[i].id == id;
                    assert(opp[p].orders[i].id == id);
                }
            }
        } else {
            assert forall|j: int| 0 <= j < f.filled_ids.len() implies rests_in(
                opp,
                #[trigger] f.filled_ids[j],
            ) && !rests_in(f.levels, f.filled_ids[j]) by {
                let id = f.filled_ids[j];
                assert(lf.filled_ids[j] == q[j].id);
                assert(opp[best].orders[j].id == id);
                if rests_in(f.levels, id) {
                    let (p, i) = choose|p: u64, i: int|
                        f.levels.contains_key(p) && 0 <= i < f.levels[p].orders.len()
                            && #[trigger] f.levels[p].orders[i].id == id;
                    if p == best {
                        assert(same_order(lf.rest[i], q[n + i]));
                        assert(opp[best].orders[n + i].id == opp[best].orders[j].id);
                    } else {
                        assert(f.levels[p] == opp[p]);
                        assert(opp[p].orders[i].id == opp[best].orders[j].id);
                    }
                }
            }
        }
    }
}

/// Processing an order keeps every order that still rests findable: in a
/// book where no id occurs twice, an order whose location was known and
/// that still rests at that location afterwards keeps its location, so it
/// stays cancellable; only the orders filled completely are forgotten.
pub proof fn law_resting_orders_stay_findable(m: BookModel, order: OrderModel)
    requires
        ids_unique(m),
    ensures
        ({
            let after = process_book(m, order);
            forall|id: u64|
                #![trigger after.locations.contains_key(id)]
                m.locations.contains_key(id) && levels_of(after, m.locations[id].0).contains_key(
                    m.locations[id].1,
                ) && has_id(levels_of(after, m.locations[id].0)[m.locations[id].1].orders, id)
                    ==> after.locations.contains_key(id) && after.locations[id]
                    == m.locations[id]
        }),
{
    let os = opposite(order.side);
    let opp = levels_of(m, os);
    let f = process_fill(m, order);
    let after = process_book(m, order);
    assert(ids_unique_in(opp)) by {
        match order.side {
            Side::Buy => {},
            Side::Sell => {},
        }
    }
    lemma_fill_book_filled_leave(opp, order.side, order.price, order.id, order.quantity);
    assert forall|id: u64|
        #![trigger after.locations.contains_key(id)]
        m.locations.contains_key(id) && levels_of(after, m.locations[id].0).contains_key(
            m.locations[id].1,
        ) && has_id(levels_of(after, m.locations[id].0)[m.locations[id].1].orders, id)
            implies after.locations.contains_key(id) && after.locations[id] == m.locations[id] by {
        let (s, p) = m.locations[id];
        if f.filled_ids.to_set().contains(id) {
            let j = choose|j: int| 0 <= j < f.filled_ids.len() && f.filled_ids[j] == id;
            assert(rests_in(opp, f.filled_ids[j]));
            assert(!rests_in(f.levels, f.filled_ids[j]));
            let i = choose|i: int|
                0 <= i < levels_of(after, s)[p].orders.len()
                    && #[trigger] levels_of(after, s)[p].orders[i].id == id;
            if s == os {
                assert(levels_of(after, s) == f.levels) by {
                    match order.side {
                        Side::Buy => {},
                        Side::Sell => {},
                    }
                }
                assert(f.levels[p].orders[i].id == id);
            } else {
                assert(levels_of(after, s) == levels_of(m, s)) by {
                    match order.side {
                        Side::Buy => {},
                        Side::Sell => {},
                    }
                }
                assert(levels_of(m, s)[p].orders[i].id == id);
                assert(rests_in(levels_of(m, s), id));
                match order.side {
                    Side::Buy => {
                        assert(rests_in(m.bids, id) && rests_in(m.asks, id));
                    },
                    Side::Sell => {
                        assert(rests_in(m.bids, id) && rests_in(m.asks, id));
                    },
                }
            }
        }
    }
}

} // verus!

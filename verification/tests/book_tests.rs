use orderbook::orderbook::{OrderBook, PriceLevel};
use orderbook::types::{Order, OrderId, Price, Quantity, Side, Trade};

fn order(id: u64, price: u64, quantity: u64, side: Side) -> Order {
    Order::new(
        OrderId::new(id),
        Price::new(price),
        Quantity::new(quantity),
        side,
    )
}

fn trade(price: u64, quantity: u64, incoming: u64, resting: u64) -> Trade {
    Trade::new(
        Price::new(price),
        Quantity::new(quantity),
        OrderId::new(incoming),
        OrderId::new(resting),
    )
}

#[test]
fn value_types_round_trip() {
    let o = order(7, 120, 15, Side::Sell);
    assert_eq!(o.get_id(), OrderId::new(7));
    assert_eq!(o.get_id().get_order_id(), 7);
    assert_eq!(o.get_price().get_price(), 120);
    assert_eq!(o.get_quantity().get_quantity(), 15);
    assert_eq!(o.get_side(), Side::Sell);

    let mut o = o;
    o.set_quantity(Quantity::new(4));
    assert_eq!(o.get_quantity(), Quantity::new(4));
    assert_eq!(o.get_price(), Price::new(120));
}

#[test]
fn sell_order_matches_highest_bid_first() {
    let mut book = OrderBook::new();
    book.insert_new_order(order(1, 100, 30, Side::Buy));
    book.insert_new_order(order(2, 101, 30, Side::Buy));

    let (trades, leftover) = book.process_order(order(3, 100, 50, Side::Sell));

    assert_eq!(trades, vec![trade(101, 30, 3, 2), trade(100, 20, 3, 1)]);
    assert_eq!(leftover, Quantity::new(0));
    assert_eq!(book.get_best_bid(), Some(Price::new(100)));
    assert_eq!(book.cancel_order(OrderId::new(2)), false);
    assert_eq!(book.cancel_order(OrderId::new(1)), true);
    assert_eq!(book.get_best_bid(), None);
}

#[test]
fn sell_limit_is_respected_and_leftover_does_not_cross() {
    let mut book = OrderBook::new();
    book.insert_new_order(order(1, 100, 30, Side::Buy));
    book.insert_new_order(order(2, 101, 10, Side::Buy));

    let (trades, leftover) = book.process_order(order(3, 101, 25, Side::Sell));

    // only the bid at 101 reaches the sell limit of 101
    assert_eq!(trades, vec![trade(101, 10, 3, 2)]);
    assert_eq!(leftover, Quantity::new(15));
    assert_eq!(book.get_best_bid(), Some(Price::new(100)));
    assert_eq!(book.check_if_order_crosses(Price::new(101), Side::Sell), false);
}

#[test]
fn buy_trades_at_the_resting_price() {
    let mut book = OrderBook::new();
    book.insert_new_order(order(1, 100, 10, Side::Sell));

    let (trades, leftover) = book.process_order(order(2, 105, 4, Side::Buy));

    assert_eq!(trades, vec![trade(100, 4, 2, 1)]);
    assert_eq!(leftover, Quantity::new(0));
    assert_eq!(book.get_best_ask(), Some(Price::new(100)));
}

#[test]
fn traded_and_left_quantities_add_up() {
    let mut book = OrderBook::new();
    book.insert_new_order(order(1, 100, 7, Side::Sell));
    book.insert_new_order(order(2, 100, 9, Side::Sell));
    book.insert_new_order(order(3, 102, 11, Side::Sell));
    book.insert_new_order(order(4, 104, 13, Side::Sell));

    let (trades, leftover) = book.process_order(order(5, 102, 40, Side::Buy));

    assert_eq!(
        trades,
        vec![trade(100, 7, 5, 1), trade(100, 9, 5, 2), trade(102, 11, 5, 3)]
    );
    assert_eq!(leftover, Quantity::new(13));
    assert_eq!(book.get_best_ask(), Some(Price::new(104)));
    assert_eq!(book.check_if_order_crosses(Price::new(102), Side::Buy), false);
}

#[test]
fn zero_quantity_order_trades_nothing() {
    let mut book = OrderBook::new();
    book.insert_new_order(order(1, 100, 10, Side::Sell));
    let mut reference = OrderBook::new();
    reference.insert_new_order(order(1, 100, 10, Side::Sell));

    let (trades, leftover) = book.process_order(order(2, 100, 0, Side::Buy));

    assert_eq!(trades, Vec::new());
    assert_eq!(leftover, Quantity::new(0));
    assert_eq!(book, reference);
}

#[test]
fn crossing_checks_on_both_sides() {
    let mut book = OrderBook::new();
    assert_eq!(book.check_if_order_crosses(Price::new(100), Side::Buy), false);
    assert_eq!(book.check_if_order_crosses(Price::new(100), Side::Sell), false);

    book.insert_new_order(order(1, 100, 10, Side::Sell));
    book.insert_new_order(order(2, 90, 10, Side::Buy));

    assert_eq!(book.check_if_order_crosses(Price::new(100), Side::Buy), true);
    assert_eq!(book.check_if_order_crosses(Price::new(99), Side::Buy), false);
    assert_eq!(book.check_if_order_crosses(Price::new(90), Side::Sell), true);
    assert_eq!(book.check_if_order_crosses(Price::new(91), Side::Sell), false);
}

#[test]
fn cancel_undoes_insert() {
    let mut book = OrderBook::new();
    book.insert_new_order(order(1, 100, 10, Side::Buy));
    book.insert_new_order(order(2, 110, 5, Side::Sell));
    let mut reference = OrderBook::new();
    reference.insert_new_order(order(1, 100, 10, Side::Buy));
    reference.insert_new_order(order(2, 110, 5, Side::Sell));

    // at an existing level
    book.insert_new_order(order(3, 100, 8, Side::Buy));
    assert_eq!(book.cancel_order(OrderId::new(3)), true);
    assert_eq!(book, reference);

    // at a new level
    book.insert_new_order(order(4, 120, 8, Side::Sell));
    assert_eq!(book.cancel_order(OrderId::new(4)), true);
    assert_eq!(book, reference);
}

#[test]
fn cancel_of_unknown_id_changes_nothing() {
    let mut book = OrderBook::new();
    book.insert_new_order(order(1, 100, 10, Side::Buy));
    let mut reference = OrderBook::new();
    reference.insert_new_order(order(1, 100, 10, Side::Buy));

    assert_eq!(book.cancel_order(OrderId::new(9)), false);
    assert_eq!(book, reference);
    assert_eq!(book.cancel_order(OrderId::new(1)), true);
    assert_eq!(book.cancel_order(OrderId::new(1)), false);
}

#[test]
fn cancel_keeps_time_priority_of_the_others() {
    let mut book = OrderBook::new();
    book.insert_new_order(order(1, 100, 10, Side::Sell));
    book.insert_new_order(order(2, 100, 20, Side::Sell));
    book.insert_new_order(order(3, 100, 30, Side::Sell));

    assert_eq!(book.cancel_order(OrderId::new(2)), true);

    let (trades, leftover) = book.process_order(order(4, 100, 60, Side::Buy));
    assert_eq!(trades, vec![trade(100, 10, 4, 1), trade(100, 30, 4, 3)]);
    assert_eq!(leftover, Quantity::new(20));
    assert_eq!(book.get_best_ask(), None);
}

#[test]
fn reused_id_cancels_the_order_last_recorded() {
    let mut book = OrderBook::new();
    book.insert_new_order(order(1, 100, 10, Side::Sell));
    book.insert_new_order(order(1, 101, 10, Side::Sell));

    // the location of id 1 now names the ask at 101
    assert_eq!(book.cancel_order(OrderId::new(1)), true);
    assert_eq!(book.get_best_ask(), Some(Price::new(100)));
    // the location was forgotten, though an order with id 1 still rests
    assert_eq!(book.cancel_order(OrderId::new(1)), false);
    assert_eq!(book.get_best_ask(), Some(Price::new(100)));
}

#[test]
fn best_opposite_level_is_at_the_best_price() {
    let mut book = OrderBook::new();
    assert!(book.get_best_opposite_level(Side::Buy).is_none());
    assert!(book.get_best_opposite_level(Side::Sell).is_none());

    book.insert_new_order(order(1, 100, 10, Side::Sell));
    book.insert_new_order(order(2, 99, 5, Side::Sell));
    book.insert_new_order(order(3, 90, 7, Side::Buy));
    book.insert_new_order(order(4, 95, 3, Side::Buy));

    let mut best_ask = PriceLevel::new(Price::new(99));
    best_ask.add_order_to_price_level(order(2, 99, 5, Side::Sell));
    assert_eq!(book.get_best_opposite_level(Side::Buy), Some(&mut best_ask));

    let mut best_bid = PriceLevel::new(Price::new(95));
    best_bid.add_order_to_price_level(order(4, 95, 3, Side::Buy));
    assert_eq!(book.get_best_opposite_level(Side::Sell), Some(&mut best_bid));
}

#[test]
fn changes_through_the_best_opposite_level_stay_in_the_book() {
    let mut book = OrderBook::new();
    book.insert_new_order(order(1, 100, 10, Side::Sell));

    let level = book.get_best_opposite_level(Side::Buy).unwrap();
    level.add_order_to_price_level(order(2, 100, 5, Side::Sell));

    let (trades, leftover) = book.process_order(order(3, 100, 20, Side::Buy));
    assert_eq!(trades, vec![trade(100, 10, 3, 1), trade(100, 5, 3, 2)]);
    assert_eq!(leftover, Quantity::new(5));
}

#[test]
fn price_level_matches_front_first() {
    let mut level = PriceLevel::new(Price::new(100));
    assert_eq!(level.is_queue_empty(), true);
    level.add_order_to_price_level(order(1, 100, 10, Side::Sell));
    level.add_order_to_price_level(order(2, 100, 20, Side::Sell));
    level.add_order_to_price_level(order(3, 100, 30, Side::Sell));
    assert_eq!(level.is_queue_empty(), false);

    let mut incoming = order(9, 100, 35, Side::Buy);
    let (trades, removed) = level.match_within_level(&mut incoming);

    assert_eq!(
        trades,
        vec![trade(100, 10, 9, 1), trade(100, 20, 9, 2), trade(100, 5, 9, 3)]
    );
    assert_eq!(removed, vec![OrderId::new(1), OrderId::new(2)]);
    assert_eq!(incoming.get_quantity(), Quantity::new(0));

    let mut expected = PriceLevel::new(Price::new(100));
    expected.add_order_to_price_level(order(1, 100, 10, Side::Sell));
    expected.add_order_to_price_level(order(2, 100, 20, Side::Sell));
    expected.add_order_to_price_level(order(3, 100, 30, Side::Sell));
    let mut first = order(8, 100, 30, Side::Buy);
    let _ = expected.match_within_level(&mut first);
    let mut second = order(7, 100, 5, Side::Buy);
    let _ = expected.match_within_level(&mut second);
    assert_eq!(level, expected);
}

#[test]
fn price_level_exact_fill_reports_the_removed_order() {
    let mut level = PriceLevel::new(Price::new(50));
    level.add_order_to_price_level(order(1, 50, 10, Side::Buy));

    let mut incoming = order(2, 50, 10, Side::Sell);
    let (trades, removed) = level.match_within_level(&mut incoming);

    assert_eq!(trades, vec![trade(50, 10, 2, 1)]);
    assert_eq!(removed, vec![OrderId::new(1)]);
    assert_eq!(incoming.get_quantity(), Quantity::new(0));
    assert_eq!(level.is_queue_empty(), true);
}

#[test]
fn price_level_leaves_incoming_remainder() {
    let mut level = PriceLevel::new(Price::new(50));
    level.add_order_to_price_level(order(1, 50, 4, Side::Buy));

    let mut incoming = order(2, 50, 10, Side::Sell);
    let (trades, removed) = level.match_within_level(&mut incoming);

    assert_eq!(trades, vec![trade(50, 4, 2, 1)]);
    assert_eq!(removed, vec![OrderId::new(1)]);
    assert_eq!(incoming.get_quantity(), Quantity::new(6));
    assert_eq!(level, PriceLevel::new(Price::new(50)));
}

#[test]
fn resting_the_leftover_keeps_the_book_uncrossed() {
    let mut book = OrderBook::new();
    book.insert_new_order(order(1, 100, 10, Side::Buy));
    book.insert_new_order(order(2, 103, 4, Side::Buy));
    book.insert_new_order(order(3, 110, 5, Side::Sell));

    let (trades, leftover) = book.process_order(order(4, 101, 10, Side::Sell));
    assert_eq!(trades, vec![trade(103, 4, 4, 2)]);
    assert_eq!(leftover, Quantity::new(6));

    book.insert_new_order(Order::new(OrderId::new(4), Price::new(101), leftover, Side::Sell));
    assert_eq!(book.get_best_bid(), Some(Price::new(100)));
    assert_eq!(book.get_best_ask(), Some(Price::new(101)));
    assert_eq!(book.check_if_order_crosses(Price::new(100), Side::Sell), true);
    assert_eq!(book.cancel_order(OrderId::new(4)), true);
    assert_eq!(book.get_best_ask(), Some(Price::new(110)));
}

#[test]
fn price_level_total_follows_a_partial_fill() {
    let mut level = PriceLevel::new(Price::new(100));
    level.add_order_to_price_level(order(1, 100, 20, Side::Sell));

    let mut incoming = order(2, 100, 5, Side::Buy);
    let (trades, removed) = level.match_within_level(&mut incoming);
    assert_eq!(trades, vec![trade(100, 5, 2, 1)]);
    assert_eq!(removed, Vec::new());

    // the level is now the same as one holding the 15 that rest
    let mut expected = PriceLevel::new(Price::new(100));
    expected.add_order_to_price_level(order(1, 100, 15, Side::Sell));
    assert_eq!(level, expected);

    let mut rest = order(3, 100, 15, Side::Buy);
    let _ = level.match_within_level(&mut rest);
    assert_eq!(level, PriceLevel::new(Price::new(100)));
}

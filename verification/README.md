# orderbook

A price-time priority limit order book, verified with Verus. Incoming limit
orders are matched against resting orders at the best available price, first
in first out within each price level; orders can be rested and cancelled.

- `src/types.rs`: prices, quantities, order ids, sides, orders and trades,
  with their mathematical views.
- `src/price_map.rs`: the lowest and highest key of a `BTreeMap` keyed by
  price, and mutable access to a stored level.
- `src/matching.rs`: the model of price levels and of the book, what
  matching, resting and cancelling do to it, and the book's invariant.
- `src/orderbook.rs`: `PriceLevel` and `OrderBook`, whose contracts state
  their results exactly over that model.
- `src/laws.rs`: laws of matching, resting and cancelling, proved.

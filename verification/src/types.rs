//! Value types of the order book: prices, quantities, order ids, sides,
//! orders and the trades that matching produces.
//!
//! Each wrapper type has a mathematical view (`@`) that the contracts of the
//! book speak of: a `Price`, `Quantity` or `OrderId` is viewed as the `u64`
//! it wraps, an `Order` as an [`OrderModel`] and a `Trade` as a
//! [`TradeModel`].
use vstd::prelude::*;

verus! {

/// The limit price of an order, or the price at which a trade executes.
#[derive(Debug, Clone, Copy, PartialEq, Eq, PartialOrd, Ord)]
pub struct Price {
    price_value: u64,
}

/// An amount of the traded instrument.
#[derive(Debug, Clone, Copy, PartialEq, Eq, PartialOrd, Ord)]
pub struct Quantity {
    quantity_value: u64,
}

/// The identifier a client gives to its order.
#[derive(Debug, Clone, Copy, PartialEq, Eq, PartialOrd, Ord, Hash)]
pub struct OrderId {
    order_id: u64,
}

/// Which side of the book an order belongs to.
#[derive(Debug, Clone, Copy, PartialEq, Eq, Structural, PartialOrd, Ord)]
pub enum Side {
    Buy,
    Sell,
}

/// One execution between an incoming order and a resting order.
#[derive(Debug, PartialEq)]
pub struct Trade {
    price: Price,
    quantity: Quantity,
    incoming_order_id: OrderId,
    resting_order_id: OrderId,
}

/// A limit order.
#[derive(Debug, Clone, PartialEq, Eq, PartialOrd, Ord)]
pub struct Order {
    id: OrderId,
    price: Price,
    quantity: Quantity,
    side: Side,
}

/// The mathematical view of an [`Order`].
pub struct OrderModel {
    pub id: u64,
    pub price: u64,
    pub quantity: u64,
    pub side: Side,
}

/// The mathematical view of a [`Trade`].
pub struct TradeModel {
    pub price: u64,
    pub quantity: u64,
    pub incoming_order_id: u64,
    pub resting_order_id: u64,
}

impl View for Price {
    type V = u64;

    closed spec fn view(&self) -> u64 {
        self.price_value
    }
}

impl View for Quantity {
    type V = u64;

    closed spec fn view(&self) -> u64 {
        self.quantity_value
    }
}

impl View for OrderId {
    type V = u64;

    closed spec fn view(&self) -> u64 {
        self.order_id
    }
}

impl View for Order {
    type V = OrderModel;

    closed spec fn view(&self) -> OrderModel {
        OrderModel {
            id: self.id@,
            price: self.price@,
            quantity: self.quantity@,
            side: self.side,
        }
    }
}

impl View for Trade {
    type V = TradeModel;

    closed spec fn view(&self) -> TradeModel {
        TradeModel {
            price: self.price@,
            quantity: self.quantity@,
            incoming_order_id: self.incoming_order_id@,
            resting_order_id: self.resting_order_id@,
        }
    }
}

impl Order {
    pub fn get_id(&self) -> (r: OrderId)
        ensures
            r@ == self@.id,
    {
        return self.id;
    }

    pub fn get_price(&self) -> (r: Price)
        ensures
            r@ == self@.price,
    {
        return self.price;
    }

    pub fn get_quantity(&self) -> (r: Quantity)
        ensures
            r@ == self@.quantity,
    {
        return self.quantity;
    }

    pub fn get_side(&self) -> (r: Side)
        ensures
            r == self@.side,
    {
        return self.side;
    }

    pub fn set_quantity(&mut self, new_quantity: Quantity)
        ensures
            final(self)@ == (OrderModel { quantity: new_quantity@, ..old(self)@ }),
    {
        self.quantity = new_quantity;
    }

    pub fn new(id: OrderId, price: Price, quantity: Quantity, side: Side) -> (r: Order)
        ensures
            r@ == (OrderModel { id: id@, price: price@, quantity: quantity@, side }),
    {
        Order { id, price, quantity, side }
    }
}

impl Price {
    pub fn new(value: u64) -> (r: Price)
        ensures
            r@ == value,
    {
        Price { price_value: value }
    }

    pub fn get_price(&self) -> (r: u64)
        ensures
            r == self@,
    {
        return self.price_value;
    }
}

impl Quantity {
    pub fn new(value: u64) -> (r: Quantity)
        ensures
            r@ == value,
    {
        Quantity { quantity_value: value }
    }

    pub fn get_quantity(&self) -> (r: u64)
        ensures
            r == self@,
    {
        return self.quantity_value;
    }
}

impl OrderId {
    pub fn new(value: u64) -> (r: OrderId)
        ensures
            r@ == value,
    {
        OrderId { order_id: value }
    }

    pub fn get_order_id(&self) -> (r: u64)
        ensures
            r == self@,
    {
        return self.order_id;
    }
}

impl Trade {
    pub fn new(
        price: Price,
        quantity: Quantity,
        incoming_order_id: OrderId,
        resting_order_id: OrderId,
    ) -> (r: Trade)
        ensures
            r@ == (TradeModel {
                price: price@,
                quantity: quantity@,
                incoming_order_id: incoming_order_id@,
                resting_order_id: resting_order_id@,
            }),
    {
        Trade { price, quantity, incoming_order_id, resting_order_id }
    }
}

} // verus!

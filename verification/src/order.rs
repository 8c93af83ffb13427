//! Order types and state transitions.

use vstd::prelude::*;
use crate::amount::{Amount, U256};
use crate::price::{price_cmp, Price, PriceV};
use crate::token::Address;
use core::cmp::Ordering;

verus! {

/// Unique identifier for an order.
#[derive(Debug, Clone, Copy, PartialEq, Eq, Hash, Structural)]
pub struct OrderId(pub u64);

impl OrderId {
    pub fn new(id: u64) -> (r: Self)
        ensures
            r == OrderId(id),
    {
        Self(id)
    }
}

/// Side of the order (buy or sell).
#[derive(Debug, Clone, Copy, PartialEq, Eq, Hash, Structural)]
pub enum OrderSide {
    /// Buy order: wants to buy base token with quote token.
    Buy,
    /// Sell order: wants to sell base token for quote token.
    Sell,
}

/// Type of order.
#[derive(Debug, Clone, Copy, PartialEq, Eq, Structural)]
pub enum OrderType {
    /// Limit order: execute at specified price or better.
    Limit,
    /// Market order: execute immediately at best available price.
    Market,
}

/// Status of an order.
#[derive(Debug, Clone, Copy, PartialEq, Eq, Structural)]
pub enum OrderStatus {
    /// Order is open and can be matched.
    Open,
    /// Order has been partially filled.
    PartiallyFilled,
    /// Order has been completely filled.
    Filled,
    /// Order has been cancelled.
    Cancelled,
}

/// The mathematical content of an order.
#[verifier::ext_equal]
pub struct OrderV {
    pub id: u64,
    pub trader: Seq<u8>,
    pub side: OrderSide,
    pub order_type: OrderType,
    pub price: PriceV,
    pub original: nat,
    pub remaining: nat,
    pub status: OrderStatus,
}

/// Whether an order can still be matched.
pub open spec fn is_active_v(o: OrderV) -> bool {
    o.status == OrderStatus::Open || o.status == OrderStatus::PartiallyFilled
}

/// The order after filling `amount` of its remaining base: the subtraction
/// saturates at zero, and the status becomes `Filled` exactly when nothing
/// remains, else `PartiallyFilled`.
pub open spec fn spec_fill(o: OrderV, amount: nat) -> OrderV {
    let remaining = if o.remaining >= amount {
        (o.remaining - amount) as nat
    } else {
        0nat
    };
    let status = if remaining == 0 {
        OrderStatus::Filled
    } else {
        OrderStatus::PartiallyFilled
    };
    OrderV { remaining, status, ..o }
}

/// Whether `a` (the incoming order) can match `b`: opposite sides and a
/// compatible price under the saturated comparison.
pub open spec fn spec_can_match(a: OrderV, b: OrderV) -> bool {
    &&& a.side != b.side
    &&& if a.side == OrderSide::Buy {
        price_cmp(a.price, b.price) != Ordering::Less
    } else {
        price_cmp(a.price, b.price) != Ordering::Greater
    }
}

/// An order in the orderbook.
#[derive(Debug, Clone, Copy)]
pub struct Order {
    /// Unique order identifier.
    pub id: OrderId,
    /// Address of the trader who placed the order.
    pub trader: Address,
    /// Buy or sell.
    pub side: OrderSide,
    /// Limit or market order.
    pub order_type: OrderType,
    /// Price per unit (for limit orders).
    pub price: Price,
    /// Original amount of base token.
    pub original_amount: Amount,
    /// Remaining amount of base token to be filled.
    pub remaining_amount: Amount,
    /// Current status of the order.
    pub status: OrderStatus,
    /// Timestamp when the order was created (unix millis).
    pub timestamp: u64,
}

impl View for Order {
    type V = OrderV;

    open spec fn view(&self) -> OrderV {
        OrderV {
            id: self.id.0,
            trader: self.trader@,
            side: self.side,
            order_type: self.order_type,
            price: self.price@,
            original: self.original_amount@,
            remaining: self.remaining_amount@,
            status: self.status,
        }
    }
}

/// Relies on `std::time::SystemTime::now`: the host clock in unix
/// milliseconds, zero when the clock is before the epoch. Informational
/// only; no contract of the library depends on its value.
#[verifier::external_body]
fn current_timestamp() -> u64 {
    match std::time::SystemTime::now().duration_since(std::time::UNIX_EPOCH) {
        Ok(d) => d.as_millis() as u64,
        Err(_) => 0,
    }
}

impl Order {
    /// Create a new limit order: open, nothing filled yet.
    pub fn new_limit(id: OrderId, trader: Address, side: OrderSide, price: Price, amount: Amount)
        -> (r: Self)
        ensures
            r@ == (OrderV {
                id: id.0,
                trader: trader@,
                side,
                order_type: OrderType::Limit,
                price: price@,
                original: amount@,
                remaining: amount@,
                status: OrderStatus::Open,
            }),
    {
        Self {
            id,
            trader,
            side,
            order_type: OrderType::Limit,
            price,
            original_amount: amount,
            remaining_amount: amount,
            status: OrderStatus::Open,
            timestamp: current_timestamp(),
        }
    }

    /// Create a new market order. Market orders carry a sentinel price by
    /// side: a buy is willing to pay any price, a sell to accept any price.
    pub fn new_market(id: OrderId, trader: Address, side: OrderSide, amount: Amount) -> (r: Self)
        ensures
            r@ == (OrderV {
                id: id.0,
                trader: trader@,
                side,
                order_type: OrderType::Market,
                price: r@.price,
                original: amount@,
                remaining: amount@,
                status: OrderStatus::Open,
            }),
            r@.price == if side == OrderSide::Buy {
                PriceV { num: (crate::amount::u256_bound() - 1) as nat, den: 1nat }
            } else {
                PriceV { num: 1nat, den: (crate::amount::u256_bound() - 1) as nat }
            },
    {
        let price = match side {
            OrderSide::Buy => Price::new(U256::max_value(), U256::from_u64(1)),
            OrderSide::Sell => Price::new(U256::from_u64(1), U256::max_value()),
        };
        Self {
            id,
            trader,
            side,
            order_type: OrderType::Market,
            price,
            original_amount: amount,
            remaining_amount: amount,
            status: OrderStatus::Open,
            timestamp: current_timestamp(),
        }
    }

    /// Check if the order is still active (can be matched).
    pub fn is_active(&self) -> (r: bool)
        ensures
            r == is_active_v(self@),
    {
        match self.status {
            OrderStatus::Open => true,
            OrderStatus::PartiallyFilled => true,
            _ => false,
        }
    }

    /// Fill some amount of the order. Must not be called on a terminal order.
    pub fn fill(&mut self, amount: Amount)
        requires
            is_active_v(old(self)@),
        ensures
            final(self)@ == spec_fill(old(self)@, amount@),
    {
        self.remaining_amount = self.remaining_amount.saturating_sub(&amount);
        if self.remaining_amount.is_zero() {
            self.status = OrderStatus::Filled;
        } else {
            self.status = OrderStatus::PartiallyFilled;
        }
    }

    /// Cancel the order.
    pub fn cancel(&mut self)
        ensures
            final(self)@ == (OrderV { status: OrderStatus::Cancelled, ..old(self)@ }),
    {
        self.status = OrderStatus::Cancelled;
    }

    /// Get the filled amount: original minus remaining, clamped at zero.
    pub fn filled_amount(&self) -> (r: Amount)
        ensures
            r@ == if self@.original >= self@.remaining {
                (self@.original - self@.remaining) as nat
            } else {
                0nat
            },
    {
        self.original_amount.saturating_sub(&self.remaining_amount)
    }

    /// Check if this order can match with another order: opposite sides and,
    /// for a buy, a price at least the sell's; for a sell, at most the buy's.
    pub fn can_match(&self, other: &Order) -> (r: bool)
        ensures
            r == spec_can_match(self@, other@),
    {
        if self.side == other.side {
            return false;
        }
        match self.side {
            OrderSide::Buy => {
                match self.price.cmp_value(&other.price) {
                    Ordering::Less => false,
                    _ => true,
                }
            },
            OrderSide::Sell => {
                match self.price.cmp_value(&other.price) {
                    Ordering::Greater => false,
                    _ => true,
                }
            },
        }
    }
}

} // verus!

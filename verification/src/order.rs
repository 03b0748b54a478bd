//! Orders: what they are, when two of them can trade, and how one is split.

use vstd::prelude::*;
use crate::error::ErrorType;
use crate::error::EngineResult;
use crate::ids::fresh_id;
use crate::ids::is_random_id;
use crate::ids::clock_now;

verus! {

/// The price constraint of an order.
#[derive(Copy, Clone, Debug, PartialEq, Eq, Structural)]
pub enum OrderMode {
    /// Trade at whatever limit the counterparty asks.
    Best,
    /// Trade at this price per unit.
    Limit(usize),
}

impl OrderMode {
    /// The price of the mode, if it has one.
    pub open spec fn limit(self) -> Result<usize, ErrorType> {
        match self {
            OrderMode::Limit(limit) => Ok(limit),
            OrderMode::Best => Err(ErrorType::NoLimitForBestOrder),
        }
    }

    /// The price of the mode, if it has one.
    pub fn get_limit(&self) -> (result: EngineResult<usize>)
        ensures
            result == self.limit(),
    {
        match self {
            OrderMode::Limit(limit) => Ok(*limit),
            OrderMode::Best => Err(ErrorType::NoLimitForBestOrder),
        }
    }
}

/// Which way an order trades.
#[derive(Copy, Clone, Debug, PartialEq, Eq, Structural)]
pub enum OrderSide {
    Sell,
    Buy,
}

/// An instruction to trade `quantity` units of `asset` for `portfolio`.
/// An order never changes; a partial fill replaces it by what `split` gives.
#[derive(Copy, Clone, Debug, PartialEq, Eq, Structural)]
pub struct Order {
    pub id: u128,
    pub asset: u128,
    pub mode: OrderMode,
    pub side: OrderSide,
    pub quantity: usize,
    pub expires: u128,
    pub created_at: u128,
    pub portfolio: u128,
}

impl Order {
    /// A positive quantity, and a positive price if there is one.
    pub open spec fn valid(self) -> bool {
        self.quantity > 0 && self.mode != OrderMode::Limit(0)
    }

    /// Why an order with this quantity and mode cannot be created, if so.
    pub open spec fn rejection(quantity: usize, mode: OrderMode) -> Option<ErrorType> {
        if quantity == 0 {
            Some(ErrorType::QuantityCantBeZero)
        } else if mode == OrderMode::Limit(0) {
            Some(ErrorType::LimitCantBeZero)
        } else {
            None
        }
    }

    /// The order with exactly these fields, or the reason it is rejected.
    pub open spec fn stamped_spec(
        id: u128,
        created_at: u128,
        portfolio: u128,
        asset: u128,
        side: OrderSide,
        quantity: usize,
        mode: OrderMode,
        expires: u128,
    ) -> Result<Order, ErrorType> {
        match Order::rejection(quantity, mode) {
            Some(e) => Err(e),
            None => Ok(Order { id, asset, mode, side, quantity, expires, created_at, portfolio }),
        }
    }

    /// Whether the two orders can trade with each other: the same asset,
    /// opposite sides, and prices that meet. An order without a limit meets
    /// any limit but not another order without one; two limits meet when the
    /// seller asks no more than the buyer offers.
    pub open spec fn spec_matches(self, o: Order) -> bool {
        &&& self.asset == o.asset
        &&& self.side != o.side
        &&& match (self.mode, o.mode) {
            (OrderMode::Best, OrderMode::Best) => false,
            (OrderMode::Limit(a), OrderMode::Limit(b)) => match self.side {
                OrderSide::Sell => a <= b,
                OrderSide::Buy => b <= a,
            },
            _ => true,
        }
    }

    /// The two parts of this order when `split_quantity` units are cut off:
    /// first the part of that size, then the rest.
    pub open spec fn split_spec(self, split_quantity: int) -> Result<(Order, Order), ErrorType> {
        if 0 < split_quantity < self.quantity {
            Ok(
                (
                    Order { quantity: split_quantity as usize, ..self },
                    Order { quantity: (self.quantity - split_quantity) as usize, ..self },
                ),
            )
        } else {
            Err(ErrorType::CantSplitOrder)
        }
    }

    /// Creates an order under a fresh random identifier, stamped with the
    /// current time in nanoseconds since 1970, or with zero where the clock
    /// stands before that. Which identifier and which time is not determined;
    /// all else is.
    pub fn new(
        portfolio: u128,
        asset: u128,
        side: OrderSide,
        quantity: usize,
        mode: OrderMode,
        expires: u128,
    ) -> (result: EngineResult<Order>)
        ensures
            match result {
                Ok(order) => is_random_id(order.id) && Order::stamped_spec(
                    order.id,
                    order.created_at,
                    portfolio,
                    asset,
                    side,
                    quantity,
                    mode,
                    expires,
                ) == Ok::<Order, ErrorType>(order),
                Err(e) => Order::rejection(quantity, mode) == Some(e),
            },
    {
        let id = fresh_id();
        let created_at = match clock_now() {
            Some(nanos) => nanos,
            None => 0,
        };
        Order::stamped(id, created_at, portfolio, asset, side, quantity, mode, expires)
    }

    /// Creates the order with the given identifier and creation time.
    pub fn stamped(
        id: u128,
        created_at: u128,
        portfolio: u128,
        asset: u128,
        side: OrderSide,
        quantity: usize,
        mode: OrderMode,
        expires: u128,
    ) -> (result: EngineResult<Order>)
        ensures
            result == Order::stamped_spec(
                id,
                created_at,
                portfolio,
                asset,
                side,
                quantity,
                mode,
                expires,
            ),
    {
        if quantity == 0 {
            return Err(ErrorType::QuantityCantBeZero);
        }
        match mode {
            OrderMode::Limit(l) => {
                if l == 0 {
                    return Err(ErrorType::LimitCantBeZero);
                }
            },
            OrderMode::Best => {},
        }
        Ok(Order { id, asset, side, quantity, mode, expires, portfolio, created_at })
    }

    /// Whether the two orders can trade with each other.
    pub fn matches(&self, o: &Order) -> (result: bool)
        ensures
            result == self.spec_matches(*o),
    {
        let assets_matching = self.asset == o.asset;
        if !assets_matching {
            return false;
        }
        let sides_matching = match (self.side, o.side) {
            (OrderSide::Sell, OrderSide::Buy) => true,
            (OrderSide::Buy, OrderSide::Sell) => true,
            _ => false,
        };
        if !sides_matching {
            return false;
        }
        match (self.mode, o.mode) {
            (OrderMode::Limit(_), OrderMode::Best) => true,
            (OrderMode::Best, OrderMode::Limit(_)) => true,
            (OrderMode::Best, OrderMode::Best) => false,
            (OrderMode::Limit(a), OrderMode::Limit(b)) => match self.side {
                OrderSide::Sell => a <= b,
                OrderSide::Buy => a >= b,
            },
        }
    }

    /// Cuts `split_quantity` units off the order: the part of that size comes
    /// first, the rest second. Both are the order itself in all but quantity.
    pub fn split(&self, split_quantity: usize) -> (result: EngineResult<(Order, Order)>)
        ensures
            result == self.split_spec(split_quantity as int),
    {
        if split_quantity == 0 || split_quantity >= self.quantity {
            return Err(ErrorType::CantSplitOrder);
        }
        let mut left = *self;
        left.quantity = split_quantity;
        let mut right = *self;
        right.quantity = self.quantity - split_quantity;
        Ok((left, right))
    }
}

/// What a participant sends to place an order: how much, and at what price.
/// The portfolio, the asset and the side come with the request's address.
#[derive(Copy, Clone, Debug)]
pub struct OrderPlacement {
    pub quantity: usize,
    pub mode: OrderMode,
}

impl OrderPlacement {
    /// The order that this placement asks for.
    pub fn into_order(
        &self,
        portfolio: u128,
        asset: u128,
        side: OrderSide,
        expires: u128,
    ) -> (result: EngineResult<Order>)
        ensures
            match result {
                Ok(order) => is_random_id(order.id) && Order::stamped_spec(
                    order.id,
                    order.created_at,
                    portfolio,
                    asset,
                    side,
                    self.quantity,
                    self.mode,
                    expires,
                ) == Ok::<Order, ErrorType>(order),
                Err(e) => Order::rejection(self.quantity, self.mode) == Some(e),
            },
    {
        Order::new(portfolio, asset, side, self.quantity, self.mode, expires)
    }
}

/// The parts of a split are the order itself in all but quantity, and their
/// quantities add up to the order's.
pub proof fn lemma_split_parts(order: Order, split_quantity: int)
    requires
        order.split_spec(split_quantity) is Ok,
    ensures
        ({
            let (left, right) = order.split_spec(split_quantity)->Ok_0;
            &&& left.quantity + right.quantity == order.quantity
            &&& left.quantity == split_quantity
            &&& left.quantity > 0
            &&& right.quantity > 0
            &&& left == Order { quantity: left.quantity, ..order }
            &&& right == Order { quantity: right.quantity, ..order }
        }),
{
}

} // verus!

//! Orders as they are submitted: a side, a quantity and, for limit orders, a
//! worst acceptable price. Prices and quantities are unsigned integers in
//! minor units.

use vstd::prelude::*;

verus! {

/// The side of the book an order belongs to.
#[derive(Debug, Clone, Copy, PartialEq, Eq, Structural)]
pub enum OrderSide {
    Buy,
    Sell,
}

/// A request to buy or sell.
#[derive(Debug, Clone, Copy, PartialEq, Eq, Structural)]
pub enum Order {
    /// Rests in the book until the opposite side reaches `limit_price`.
    LimitOrder { side: OrderSide, quantity: u64, limit_price: u64 },
    /// Trades at once at the prevailing price; never rests.
    MarketOrder { side: OrderSide, quantity: u64 },
}

/// Why an order was refused by validation.
#[derive(Debug, Clone, Copy, PartialEq, Eq, Structural)]
pub enum OrderErr {
    /// The quantity is zero.
    InvalidQuantity,
    /// The limit price of a limit order is zero.
    InvalidPrice,
}

impl Order {
    /// The side named by the order, whichever its shape.
    pub open spec fn spec_side(&self) -> OrderSide {
        match *self {
            Order::LimitOrder { side, .. } => side,
            Order::MarketOrder { side, .. } => side,
        }
    }

    /// The quantity named by the order, whichever its shape.
    pub open spec fn spec_quantity(&self) -> u64 {
        match *self {
            Order::LimitOrder { quantity, .. } => quantity,
            Order::MarketOrder { quantity, .. } => quantity,
        }
    }

    /// The outcome of validation. The quantity is looked at first, so an order
    /// that is wrong on both counts is refused for its quantity.
    pub open spec fn spec_validate(&self) -> Result<(), OrderErr> {
        if self.spec_quantity() == 0 {
            Err(OrderErr::InvalidQuantity)
        } else if *self matches Order::LimitOrder { limit_price, .. } && limit_price == 0 {
            Err(OrderErr::InvalidPrice)
        } else {
            Ok(())
        }
    }

    /// A limit order that passes validation: the only orders a book stores.
    pub open spec fn is_valid_limit(&self) -> bool {
        *self is LimitOrder && self.spec_validate() is Ok
    }

    /// The side named by the order, whichever its shape.
    #[verifier::when_used_as_spec(spec_side)]
    pub fn side(&self) -> (s: OrderSide)
        ensures
            s == self.spec_side(),
    {
        match self {
            Order::LimitOrder { side, .. } => *side,
            Order::MarketOrder { side, .. } => *side,
        }
    }

    /// Checks the order's fields. Market orders carry no price, so only their
    /// quantity is checked.
    #[verifier::when_used_as_spec(spec_validate)]
    pub fn validate(&self) -> (r: Result<(), OrderErr>)
        ensures
            r == self.spec_validate(),
    {
        match self {
            Order::LimitOrder { quantity, limit_price, .. } => {
                if *quantity == 0 {
                    return Err(OrderErr::InvalidQuantity);
                }
                if *limit_price == 0 {
                    return Err(OrderErr::InvalidPrice);
                }
                Ok(())
            },
            Order::MarketOrder { quantity, .. } => {
                if *quantity == 0 {
                    return Err(OrderErr::InvalidQuantity);
                }
                Ok(())
            },
        }
    }
}

/// Validation is total and its outcomes exclude one another: every order is
/// accepted, refused for its quantity, or refused for its price, and exactly
/// one of the three holds.
pub proof fn lemma_validation_total(order: Order)
    ensures
        order.spec_validate() == Ok::<(), OrderErr>(()) <==> order.spec_quantity() > 0 && (order
            matches Order::LimitOrder { limit_price, .. } ==> limit_price > 0),
        order.spec_validate() == Err::<(), OrderErr>(OrderErr::InvalidQuantity)
            <==> order.spec_quantity() == 0,
        order.spec_validate() == Err::<(), OrderErr>(OrderErr::InvalidPrice)
            <==> order.spec_quantity() > 0 && (order matches Order::LimitOrder { limit_price, .. }
            && limit_price == 0),
        (order.spec_validate() is Ok) != (order.spec_validate() is Err),
{
}

} // verus!

use vstd::prelude::*;
use super::common::{OrderId, Price, Size, Timestamp};
use std::cmp::Ordering;

verus! {

/// A resting buy order.
#[derive(Debug, Clone, Copy)]
pub struct BuyOrder {
    pub order_id: OrderId,
    pub size: Size,
    pub price: Price,
    pub timestamp: Timestamp,
}

/// A resting sell order.
#[derive(Debug, Clone, Copy)]
pub struct SellOrder {
    pub order_id: OrderId,
    pub size: Size,
    pub price: Price,
    pub timestamp: Timestamp,
}

/// Price-time priority among buy orders: `a` is matched strictly before `b`
/// when it bids more, or bids the same and arrived earlier.
pub open spec fn buy_outranks(a: BuyOrder, b: BuyOrder) -> bool {
    ||| a.price > b.price
    ||| (a.price == b.price && a.timestamp < b.timestamp)
}

/// Price-time priority among sell orders: `a` is matched strictly before `b`
/// when it asks less, or asks the same and arrived earlier.
pub open spec fn sell_outranks(a: SellOrder, b: SellOrder) -> bool {
    ||| a.price < b.price
    ||| (a.price == b.price && a.timestamp < b.timestamp)
}

impl BuyOrder {
    /// Compares by priority: `Greater` means that `self` is matched first.
    pub fn cmp(&self, other: &Self) -> (r: Ordering)
        ensures
            r == (if buy_outranks(*self, *other) {
                Ordering::Greater
            } else if buy_outranks(*other, *self) {
                Ordering::Less
            } else {
                Ordering::Equal
            }),
    {
        if self.price == other.price {
            if self.timestamp == other.timestamp {
                Ordering::Equal
            } else if self.timestamp > other.timestamp {
                Ordering::Less
            } else {
                Ordering::Greater
            }
        } else if self.price > other.price {
            Ordering::Greater
        } else {
            Ordering::Less
        }
    }
}

impl SellOrder {
    /// Compares by priority: `Greater` means that `self` is matched first.
    pub fn cmp(&self, other: &Self) -> (r: Ordering)
        ensures
            r == (if sell_outranks(*self, *other) {
                Ordering::Greater
            } else if sell_outranks(*other, *self) {
                Ordering::Less
            } else {
                Ordering::Equal
            }),
    {
        if self.price == other.price {
            if self.timestamp == other.timestamp {
                Ordering::Equal
            } else if self.timestamp > other.timestamp {
                Ordering::Less
            } else {
                Ordering::Greater
            }
        } else if self.price > other.price {
            Ordering::Less
        } else {
            Ordering::Greater
        }
    }
}

impl PartialEq for BuyOrder {
    fn eq(&self, other: &Self) -> (r: bool) {
        self.order_id == other.order_id
    }
}

impl vstd::std_specs::cmp::PartialEqSpecImpl for BuyOrder {
    open spec fn obeys_eq_spec() -> bool {
        true
    }

    open spec fn eq_spec(&self, other: &Self) -> bool {
        self.order_id == other.order_id
    }
}

impl Eq for BuyOrder {

}

impl PartialEq for SellOrder {
    fn eq(&self, other: &Self) -> (r: bool) {
        self.order_id == other.order_id
    }
}

impl vstd::std_specs::cmp::PartialEqSpecImpl for SellOrder {
    open spec fn obeys_eq_spec() -> bool {
        true
    }

    open spec fn eq_spec(&self, other: &Self) -> bool {
        self.order_id == other.order_id
    }
}

impl Eq for SellOrder {

}

} // verus!

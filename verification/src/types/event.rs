use vstd::prelude::*;
use super::common::{Direction, OrderId, Price, Size, Ticker};

verus! {

/// A market-data event, published to every subscriber.
#[derive(Debug, PartialEq)]
pub enum Event {
    OrderAdded(OrderAdded),
    OrderExecuted(OrderExecuted),
    OrderRemoved(OrderRemoved),
}

/// An order came to rest in a book.
#[derive(Debug, PartialEq)]
pub struct OrderAdded {
    pub order_id: OrderId,
    pub ticker: Ticker,
    pub direction: Direction,
    pub resting_size: Size,
    pub limit_price: Price,
}

/// An order traded.
#[derive(Debug, PartialEq)]
pub struct OrderExecuted {
    pub order_id: OrderId,
    pub ticker: Ticker,
    pub execution_size: Size,
    pub execution_price: Price,
}

/// An order was cancelled.
#[derive(Debug, PartialEq, Clone, Copy)]
pub struct OrderRemoved {
    pub order_id: OrderId,
}

impl Clone for OrderAdded {
    fn clone(&self) -> (res: Self)
        ensures
            res == *self,
    {
        OrderAdded {
            order_id: self.order_id,
            ticker: self.ticker.clone(),
            direction: self.direction,
            resting_size: self.resting_size,
            limit_price: self.limit_price,
        }
    }
}

impl Clone for OrderExecuted {
    fn clone(&self) -> (res: Self)
        ensures
            res == *self,
    {
        OrderExecuted {
            order_id: self.order_id,
            ticker: self.ticker.clone(),
            execution_size: self.execution_size,
            execution_price: self.execution_price,
        }
    }
}

impl Clone for Event {
    fn clone(&self) -> (res: Self)
        ensures
            res == *self,
    {
        match self {
            Event::OrderAdded(e) => Event::OrderAdded(e.clone()),
            Event::OrderExecuted(e) => Event::OrderExecuted(e.clone()),
            Event::OrderRemoved(e) => Event::OrderRemoved(*e),
        }
    }
}

} // verus!

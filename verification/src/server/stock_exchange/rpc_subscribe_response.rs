//! The market-data messages a subscriber receives.

use vstd::prelude::*;

verus! {

#[derive(Debug, PartialEq, Clone)]
pub struct OrderAdded {
    pub order_id: u64,
    pub ticker: String,
    pub direction: i32,
    pub limit_price: u64,
    pub size: u32,
}

#[derive(Debug, PartialEq, Clone)]
pub struct OrderExecuted {
    pub order_id: u64,
    pub ticker: String,
    pub execution_price: u64,
    pub execution_size: u32,
}

#[derive(Debug, PartialEq, Clone, Copy)]
pub struct OrderRemoved {
    pub order_id: u64,
}

#[derive(Debug, PartialEq, Clone)]
pub enum Response {
    Added(OrderAdded),
    Executed(OrderExecuted),
    Removed(OrderRemoved),
}

} // verus!

//! The requests an investor sends.

use vstd::prelude::*;

verus! {

/// The first request of a session.
#[derive(Debug, PartialEq)]
pub struct Login {
    pub seqnum: u64,
    pub investor_id: u64,
    pub password: String,
}

/// A new order; `direction`, `limit_or_market` and `time_in_force` carry
/// wire codes.
#[derive(Debug, PartialEq)]
pub struct NewOrder {
    pub seqnum: u64,
    pub ticker: String,
    pub direction: i32,
    pub size: u32,
    pub price: u64,
    pub limit_or_market: i32,
    pub time_in_force: i32,
}

/// A cancellation.
#[derive(Debug, PartialEq, Clone, Copy)]
pub struct CancelOrder {
    pub seqnum: u64,
    pub order_id: u64,
}

#[derive(Debug, PartialEq)]
pub enum Request {
    Login(Login),
    NewOrder(NewOrder),
    CancelOrder(CancelOrder),
}

} // verus!

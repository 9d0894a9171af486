//! The responses an investor receives.

use vstd::prelude::*;

verus! {

#[derive(Debug, PartialEq, Clone, Copy)]
pub struct LoginAck {
    pub seqnum: u64,
}

#[derive(Debug, PartialEq)]
pub struct LoginRej {
    pub seqnum: u64,
    pub reason: String,
}

/// A new order was accepted under `order_id`.
#[derive(Debug, PartialEq, Clone, Copy)]
pub struct OrderAck {
    pub seqnum: u64,
    pub order_id: u64,
}

/// A new order was rejected.
#[derive(Debug, PartialEq)]
pub struct OrderRej {
    pub seqnum: u64,
    pub reason: String,
}

/// Part or all of an order traded.
#[derive(Debug, PartialEq, Clone, Copy)]
pub struct OrderFill {
    pub order_id: u64,
    pub price: u64,
    pub size: u32,
}

/// An order will not trade any more.
#[derive(Debug, PartialEq, Clone, Copy)]
pub struct OrderDead {
    pub order_id: u64,
}

/// A cancellation was rejected.
#[derive(Debug, PartialEq)]
pub struct CancelRej {
    pub seqnum: u64,
    pub reason: String,
}

#[derive(Debug, PartialEq)]
pub enum Response {
    LoginAck(LoginAck),
    LoginRej(LoginRej),
    Ack(OrderAck),
    Rej(OrderRej),
    Fill(OrderFill),
    Dead(OrderDead),
    CancelRej(CancelRej),
}

} // verus!

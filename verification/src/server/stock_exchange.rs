//! The messages of the stock exchange service.

pub mod rpc_order_request;
pub mod rpc_order_response;
pub mod rpc_subscribe_response;

use vstd::prelude::*;

verus! {

/// Side of an order as the wire encodes it: 0 for buy, 1 for sell.
#[derive(Debug, PartialEq, Eq, Structural, Clone, Copy)]
pub enum RpcDirection {
    Buy,
    Sell,
}

/// Kind of an order as the wire encodes it: 0 for limit, 1 for market.
#[derive(Debug, PartialEq, Eq, Structural, Clone, Copy)]
pub enum RpcLimitOrMarket {
    Limit,
    Market,
}

/// Time in force as the wire encodes it: 0 for day, 1 for immediate or cancel.
#[derive(Debug, PartialEq, Eq, Structural, Clone, Copy)]
pub enum RpcTimeInForce {
    Day,
    Ioc,
}

impl RpcDirection {
    /// The wire code.
    pub fn code(self) -> (c: i32)
        ensures
            c == (if self == RpcDirection::Buy { 0i32 } else { 1i32 }),
    {
        match self {
            RpcDirection::Buy => 0,
            RpcDirection::Sell => 1,
        }
    }
}

impl RpcLimitOrMarket {
    /// The wire code.
    pub fn code(self) -> (c: i32)
        ensures
            c == (if self == RpcLimitOrMarket::Limit { 0i32 } else { 1i32 }),
    {
        match self {
            RpcLimitOrMarket::Limit => 0,
            RpcLimitOrMarket::Market => 1,
        }
    }
}

impl RpcTimeInForce {
    /// The wire code.
    pub fn code(self) -> (c: i32)
        ensures
            c == (if self == RpcTimeInForce::Day { 0i32 } else { 1i32 }),
    {
        match self {
            RpcTimeInForce::Day => 0,
            RpcTimeInForce::Ioc => 1,
        }
    }
}

/// A message from an investor.
#[derive(Debug, PartialEq)]
pub struct RpcOrderRequest {
    pub request: Option<rpc_order_request::Request>,
}

/// A message to an investor.
#[derive(Debug, PartialEq)]
pub struct RpcOrderResponse {
    pub response: Option<rpc_order_response::Response>,
}

/// A subscription request.
#[derive(Debug, PartialEq, Clone, Copy)]
pub struct RpcSubscribeRequest {}

/// A market-data message to a subscriber.
#[derive(Debug, PartialEq, Clone)]
pub struct RpcSubscribeResponse {
    pub response: Option<rpc_subscribe_response::Response>,
}

} // verus!

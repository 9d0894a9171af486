use vstd::prelude::*;
use super::common::{Direction, LimitOrMarket, OrderId, Price, Size, TimeInForce, Timestamp};
use super::event::Event;
use super::portal::OrderResponse;

verus! {

/// A request that an order book handles.
pub enum OrderbookRequest {
    NewOrder(NewOrderRequest),
    CancelOrder(CancelOrderRequest),
}

/// A new order, already validated and numbered by the portal.
#[derive(Debug, Clone, Copy)]
pub struct NewOrderRequest {
    pub order_id: OrderId,
    pub direction: Direction,
    pub size: Size,
    pub price: Price,
    pub timestamp: Timestamp,
    pub limit_or_market: LimitOrMarket,
    pub time_in_force: TimeInForce,
}

/// Cancellation of a resting order.
#[derive(Debug, Clone, Copy)]
pub struct CancelOrderRequest {
    pub order_id: OrderId,
}

/// What an order book reports: a response for the owner of an order, or a
/// public event.
#[derive(Debug, PartialEq)]
pub enum OrderbookLog {
    OrderLog(OrderResponse),
    EventLog(Event),
}

/// Part or all of an order traded.
#[derive(Debug, PartialEq, Clone, Copy)]
pub struct OrderFillResponse {
    pub order_id: OrderId,
    pub fill_size: Size,
    pub fill_price: Price,
}

/// An order will not trade any more.
#[derive(Debug, PartialEq, Clone, Copy)]
pub struct OrderDeadResponse {
    pub order_id: OrderId,
}

} // verus!

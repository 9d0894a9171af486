//! Helpers that read ids out of messages, and the conversions between the
//! portal's types and the messages exchanged with investors and
//! subscribers.

use vstd::prelude::*;
use crate::server::stock_exchange::rpc_order_request::{self, CancelOrder, NewOrder};
use crate::server::stock_exchange::rpc_order_response::{CancelRej, OrderAck, OrderDead, OrderFill, OrderRej, Response};
use crate::server::stock_exchange::{rpc_subscribe_response, RpcOrderRequest, RpcOrderResponse, RpcSubscribeResponse};
use crate::types::account_manager::AccountUpdate;
use crate::types::common::{Direction, InvId, LimitOrMarket, OrderId, SeqNum, SubId, TimeInForce};
use crate::types::event::Event;
use crate::types::orderbook::{OrderDeadResponse, OrderFillResponse};
use crate::types::portal::{OrderResponse, PortalNewOrderRequest, PortalRequest};
use std::time::{Duration, SystemTime, SystemTimeError, UNIX_EPOCH};

verus! {

/// The investor whose account an update changes.
pub open spec fn update_inv_id(acc_upd: AccountUpdate) -> InvId {
    match acc_upd {
        AccountUpdate::UpdCash(inv_id, _) => inv_id,
        AccountUpdate::AddPos(inv_id, _, _) => inv_id,
        AccountUpdate::MinusPos(inv_id, _, _) => inv_id,
    }
}

/// The order that a response is about.
pub open spec fn response_order_id(order_resp: OrderResponse) -> OrderId {
    match order_resp {
        OrderResponse::OrderFill(order_fill) => order_fill.order_id,
        OrderResponse::OrderDead(order_dead) => order_dead.order_id,
    }
}

/// The investor whose account an update changes.
pub fn get_inv_id(acc_upd: &AccountUpdate) -> (inv_id: InvId)
    ensures
        inv_id == update_inv_id(*acc_upd),
{
    match acc_upd {
        AccountUpdate::UpdCash(inv_id, _) => *inv_id,
        AccountUpdate::AddPos(inv_id, ..) => *inv_id,
        AccountUpdate::MinusPos(inv_id, ..) => *inv_id,
    }
}

/// The order that a response is about.
pub fn get_order_id(order_resp: &OrderResponse) -> (order_id: OrderId)
    ensures
        order_id == response_order_id(*order_resp),
{
    match order_resp {
        OrderResponse::OrderFill(order_fill) => order_fill.order_id,
        OrderResponse::OrderDead(order_dead) => order_dead.order_id,
    }
}

#[verifier::external_type_specification]
#[verifier::external_body]
pub struct ExSystemTime(SystemTime);

#[verifier::external_type_specification]
#[verifier::external_body]
pub struct ExSystemTimeError(SystemTimeError);

/// Calls `SystemTime::now`, the current time of the system clock. Nothing is
/// stated of the result: it depends on the clock.
#[verifier::external_body]
fn system_time_now() -> SystemTime {
    SystemTime::now()
}

/// Calls `SystemTime::duration_since(UNIX_EPOCH)`: the time elapsed since
/// the UNIX epoch, or an error when the time is before it. Nothing is stated
/// of the result: it depends on the time given, which comes from the clock.
#[verifier::external_body]
fn since_unix_epoch(t: &SystemTime) -> Result<Duration, SystemTimeError> {
    t.duration_since(UNIX_EPOCH)
}

/// Calls `Duration::as_secs`, the whole seconds of a duration. Nothing is
/// stated of the result: the duration is opaque here.
#[verifier::external_body]
fn duration_secs(d: &Duration) -> u64 {
    d.as_secs()
}

/// Seconds since the UNIX epoch by the system clock; 0 when the clock is
/// set before the epoch.
pub fn get_timestamp() -> u64 {
    let start = system_time_now();
    match since_unix_epoch(&start) {
        Ok(since_the_epoch) => duration_secs(&since_the_epoch),
        Err(_) => 0,
    }
}

/// The side that a wire code stands for: 0 for buy, 1 for sell.
pub open spec fn direction_of(value: i32) -> Direction {
    if value == 0 {
        Direction::Buy
    } else {
        Direction::Sell
    }
}

/// The wire code of a side.
pub open spec fn direction_code(direction: Direction) -> i32 {
    match direction {
        Direction::Buy => 0,
        Direction::Sell => 1,
    }
}

/// The order kind that a wire code stands for: 0 for limit, 1 for market.
pub open spec fn limit_or_market_of(value: i32) -> LimitOrMarket {
    if value == 0 {
        LimitOrMarket::Limit
    } else {
        LimitOrMarket::Market
    }
}

/// The time in force that a wire code stands for: 0 for day, 1 for
/// immediate or cancel.
pub open spec fn time_in_force_of(value: i32) -> TimeInForce {
    if value == 0 {
        TimeInForce::Day
    } else {
        TimeInForce::IOC
    }
}

/// A wire code is 0 or 1.
pub open spec fn valid_code(value: i32) -> bool {
    value == 0 || value == 1
}

/// A new order whose three codes are valid.
pub open spec fn valid_new_order(new_order: NewOrder) -> bool {
    valid_code(new_order.direction) && valid_code(new_order.limit_or_market) && valid_code(new_order.time_in_force)
}

/// An investor request that the portal can process: a valid new order or a
/// cancellation (a login is handled by the session).
pub open spec fn parsable_order_request(request: RpcOrderRequest) -> bool {
    match request.request {
        Some(rpc_order_request::Request::NewOrder(n)) => valid_new_order(n),
        Some(rpc_order_request::Request::CancelOrder(_)) => true,
        _ => false,
    }
}

/// The side that a wire code stands for.
pub fn parse_direction(value: i32) -> (d: Direction)
    requires
        valid_code(value),
    ensures
        d == direction_of(value),
{
    match value {
        0 => Direction::Buy,
        _ => Direction::Sell,
    }
}

/// The wire code of a side.
pub fn wrap_direction(direction: Direction) -> (c: i32)
    ensures
        c == direction_code(direction),
{
    match direction {
        Direction::Buy => 0,
        Direction::Sell => 1,
    }
}

/// The order kind that a wire code stands for.
pub fn parse_limit_or_market(value: i32) -> (k: LimitOrMarket)
    requires
        valid_code(value),
    ensures
        k == limit_or_market_of(value),
{
    match value {
        0 => LimitOrMarket::Limit,
        _ => LimitOrMarket::Market,
    }
}

/// The time in force that a wire code stands for.
pub fn parse_time_in_force(value: i32) -> (t: TimeInForce)
    requires
        valid_code(value),
    ensures
        t == time_in_force_of(value),
{
    match value {
        0 => TimeInForce::Day,
        _ => TimeInForce::IOC,
    }
}

/// The portal request for a new order of investor `inv_id`, stamped with
/// the current time.
pub fn parse_new_order_request(inv_id: InvId, new_order: NewOrder) -> (r: PortalRequest)
    requires
        valid_new_order(new_order),
    ensures
        r matches PortalRequest::NewOrder(i, req) && i == inv_id && req.ticker == new_order.ticker
            && req.direction == direction_of(new_order.direction) && req.size == new_order.size
            && req.price == new_order.price && req.limit_or_market == limit_or_market_of(new_order.limit_or_market)
            && req.time_in_force == time_in_force_of(new_order.time_in_force),
{
    let req = PortalNewOrderRequest {
        ticker: new_order.ticker,
        direction: parse_direction(new_order.direction),
        size: new_order.size,
        price: new_order.price,
        limit_or_market: parse_limit_or_market(new_order.limit_or_market),
        time_in_force: parse_time_in_force(new_order.time_in_force),
        timestamp: get_timestamp(),
    };
    PortalRequest::NewOrder(inv_id, req)
}

/// The portal request for a cancellation by investor `inv_id`.
pub fn parse_cancel_order_request(inv_id: InvId, cancel_order: CancelOrder) -> (r: PortalRequest)
    ensures
        r == PortalRequest::CancelOrder(inv_id, cancel_order.order_id),
{
    PortalRequest::CancelOrder(inv_id, cancel_order.order_id)
}

/// Whether the portal can take an investor's request: a new order whose
/// three codes are valid, or a cancellation.
pub fn is_parsable_order_request(request: &RpcOrderRequest) -> (r: bool)
    ensures
        r == parsable_order_request(*request),
{
    match &request.request {
        Some(rpc_order_request::Request::NewOrder(n)) => {
            (n.direction == 0 || n.direction == 1) && (n.limit_or_market == 0 || n.limit_or_market == 1) && (
            n.time_in_force == 0 || n.time_in_force == 1)
        },
        Some(rpc_order_request::Request::CancelOrder(_)) => true,
        _ => false,
    }
}

/// The portal request for an investor's request; the timestamp of a new
/// order is the current time.
pub fn parse_order_request(inv_id: InvId, request: RpcOrderRequest) -> (r: PortalRequest)
    requires
        parsable_order_request(request),
    ensures
        match request.request {
            Some(rpc_order_request::Request::NewOrder(n)) => r matches PortalRequest::NewOrder(i, req) && i == inv_id
                && req.ticker == n.ticker && req.direction == direction_of(n.direction) && req.size == n.size
                && req.price == n.price && req.limit_or_market == limit_or_market_of(n.limit_or_market)
                && req.time_in_force == time_in_force_of(n.time_in_force),
            Some(rpc_order_request::Request::CancelOrder(c)) => r == PortalRequest::CancelOrder(inv_id, c.order_id),
            _ => false,
        },
{
    match request.request {
        Some(rpc_order_request::Request::NewOrder(new_order)) => parse_new_order_request(inv_id, new_order),
        Some(rpc_order_request::Request::CancelOrder(cancel_order)) => parse_cancel_order_request(inv_id, cancel_order),
        _ => {
            assert(false);
            PortalRequest::CancelOrder(inv_id, 0)
        },
    }
}

/// The sequence number of a request.
pub open spec fn request_seqnum(request: RpcOrderRequest) -> SeqNum {
    match request.request {
        Some(rpc_order_request::Request::Login(login)) => login.seqnum,
        Some(rpc_order_request::Request::NewOrder(new_order)) => new_order.seqnum,
        Some(rpc_order_request::Request::CancelOrder(cancel_order)) => cancel_order.seqnum,
        None => 0,
    }
}

/// The sequence number of a request.
pub fn parse_seqnum(request: &RpcOrderRequest) -> (seqnum: SeqNum)
    requires
        request.request is Some,
    ensures
        seqnum == request_seqnum(*request),
{
    match &request.request {
        Some(rpc_order_request::Request::Login(login)) => login.seqnum,
        Some(rpc_order_request::Request::NewOrder(new_order)) => new_order.seqnum,
        Some(rpc_order_request::Request::CancelOrder(cancel_order)) => cancel_order.seqnum,
        None => 0,
    }
}

/// The message that tells an investor about an order response.
pub open spec fn order_response_message(response: OrderResponse) -> RpcOrderResponse {
    match response {
        OrderResponse::OrderFill(f) => RpcOrderResponse {
            response: Some(Response::Fill(OrderFill { order_id: f.order_id, price: f.fill_price, size: f.fill_size })),
        },
        OrderResponse::OrderDead(d) => RpcOrderResponse {
            response: Some(Response::Dead(OrderDead { order_id: d.order_id })),
        },
    }
}

/// The message that tells an investor about an order response.
pub fn wrap_order_response(response: OrderResponse) -> (m: RpcOrderResponse)
    ensures
        m == order_response_message(response),
{
    match response {
        OrderResponse::OrderFill(order_fill) => wrap_order_fill_response(order_fill),
        OrderResponse::OrderDead(order_dead) => wrap_order_dead_response(order_dead),
    }
}

/// The message that rejects a new order.
pub fn wrap_order_reject(seqnum: u64, reason: String) -> (m: RpcOrderResponse)
    ensures
        m == (RpcOrderResponse { response: Some(Response::Rej(OrderRej { seqnum, reason })) }),
{
    RpcOrderResponse { response: Some(Response::Rej(OrderRej { seqnum, reason })) }
}

/// The message that rejects a cancellation.
pub fn wrap_cancel_reject(seqnum: u64, reason: String) -> (m: RpcOrderResponse)
    ensures
        m == (RpcOrderResponse { response: Some(Response::CancelRej(CancelRej { seqnum, reason })) }),
{
    RpcOrderResponse { response: Some(Response::CancelRej(CancelRej { seqnum, reason })) }
}

/// The message that acknowledges a new order under its id.
pub fn wrap_order_ack(seqnum: SeqNum, order_id: OrderId) -> (m: RpcOrderResponse)
    ensures
        m == (RpcOrderResponse { response: Some(Response::Ack(OrderAck { seqnum, order_id })) }),
{
    RpcOrderResponse { response: Some(Response::Ack(OrderAck { seqnum: seqnum, order_id: order_id })) }
}

/// The message that reports a fill.
pub fn wrap_order_fill_response(response: OrderFillResponse) -> (m: RpcOrderResponse)
    ensures
        m == order_response_message(OrderResponse::OrderFill(response)),
{
    RpcOrderResponse {
        response: Some(Response::Fill(OrderFill {
            order_id: response.order_id,
            price: response.fill_price,
            size: response.fill_size,
        })),
    }
}

/// The message that reports a dead order.
pub fn wrap_order_dead_response(response: OrderDeadResponse) -> (m: RpcOrderResponse)
    ensures
        m == order_response_message(OrderResponse::OrderDead(response)),
{
    RpcOrderResponse { response: Some(Response::Dead(OrderDead { order_id: response.order_id })) }
}

/// The portal request for a subscriber's history.
pub fn parse_subscribe_request(sub_id: SubId) -> (r: PortalRequest)
    ensures
        r == PortalRequest::EventHistory(sub_id),
{
    PortalRequest::EventHistory(sub_id)
}

/// The market-data message for an event.
pub open spec fn event_message(event: Event) -> RpcSubscribeResponse {
    match event {
        Event::OrderAdded(added) => RpcSubscribeResponse {
            response: Some(rpc_subscribe_response::Response::Added(rpc_subscribe_response::OrderAdded {
                order_id: added.order_id,
                ticker: added.ticker,
                direction: direction_code(added.direction),
                limit_price: added.limit_price,
                size: added.resting_size,
            })),
        },
        Event::OrderExecuted(executed) => RpcSubscribeResponse {
            response: Some(rpc_subscribe_response::Response::Executed(rpc_subscribe_response::OrderExecuted {
                order_id: executed.order_id,
                ticker: executed.ticker,
                execution_price: executed.execution_price,
                execution_size: executed.execution_size,
            })),
        },
        Event::OrderRemoved(removed) => RpcSubscribeResponse {
            response: Some(rpc_subscribe_response::Response::Removed(rpc_subscribe_response::OrderRemoved {
                order_id: removed.order_id,
            })),
        },
    }
}

/// The market-data message for an event.
pub fn wrap_event(event: Event) -> (m: RpcSubscribeResponse)
    ensures
        m == event_message(event),
{
    match event {
        Event::OrderAdded(added) => RpcSubscribeResponse {
            response: Some(rpc_subscribe_response::Response::Added(rpc_subscribe_response::OrderAdded {
                order_id: added.order_id,
                ticker: added.ticker,
                direction: wrap_direction(added.direction),
                limit_price: added.limit_price,
                size: added.resting_size,
            })),
        },
        Event::OrderExecuted(executed) => RpcSubscribeResponse {
            response: Some(rpc_subscribe_response::Response::Executed(rpc_subscribe_response::OrderExecuted {
                order_id: executed.order_id,
                ticker: executed.ticker,
                execution_price: executed.execution_price,
                execution_size: executed.execution_size,
            })),
        },
        Event::OrderRemoved(removed) => RpcSubscribeResponse {
            response: Some(rpc_subscribe_response::Response::Removed(rpc_subscribe_response::OrderRemoved {
                order_id: removed.order_id,
            })),
        },
    }
}

} // verus!

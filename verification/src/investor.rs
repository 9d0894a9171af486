//! A test investor: a login and a list of orders, turned into the requests
//! of one session.

use vstd::prelude::*;
use crate::server::stock_exchange::rpc_order_request::{Login, NewOrder, Request};
use crate::server::stock_exchange::{RpcDirection, RpcLimitOrMarket, RpcOrderRequest, RpcTimeInForce};
use crate::types::common::{Direction, InvId, LimitOrMarket, Password, Price, Size, Ticker, TimeInForce};
use crate::utils::{direction_code, direction_of, limit_or_market_of, time_in_force_of, valid_new_order};

verus! {

/// One order of a test investor.
pub struct Instruction {
    pub ticker: Ticker,
    pub direction: Direction,
    pub size: Size,
    pub price: Price,
    pub limit_or_market: LimitOrMarket,
    pub time_in_force: TimeInForce,
}

/// A test investor: who logs in, and the orders sent after the login.
pub struct InvestorTest {
    pub id: InvId,
    pub password: Password,
    pub instructions: Vec<Instruction>,
}

/// The wire code of an order kind.
pub open spec fn limit_or_market_code(k: LimitOrMarket) -> i32 {
    match k {
        LimitOrMarket::Limit => 0,
        LimitOrMarket::Market => 1,
    }
}

/// The wire code of a time in force.
pub open spec fn time_in_force_code(t: TimeInForce) -> i32 {
    match t {
        TimeInForce::Day => 0,
        TimeInForce::IOC => 1,
    }
}

/// The login that opens a session, with sequence number 0.
pub open spec fn login_request(id: InvId, password: Password) -> RpcOrderRequest {
    RpcOrderRequest { request: Some(Request::Login(Login { seqnum: 0, investor_id: id, password })) }
}

/// The wire form of a new order of a session.
pub open spec fn new_order_message(seqnum: u64, ins: Instruction) -> NewOrder {
    NewOrder {
        seqnum,
        ticker: ins.ticker,
        direction: direction_code(ins.direction),
        size: ins.size,
        price: ins.price,
        limit_or_market: limit_or_market_code(ins.limit_or_market),
        time_in_force: time_in_force_code(ins.time_in_force),
    }
}

/// The request that sends an order of a session.
pub open spec fn instruction_request(seqnum: u64, ins: Instruction) -> RpcOrderRequest {
    RpcOrderRequest { request: Some(Request::NewOrder(new_order_message(seqnum, ins))) }
}

/// **Law: an order survives its wire form.** The wire form of any order
/// carries valid codes, and reading them back gives the order's side, kind
/// and time in force.
pub proof fn law_new_order_message_round_trip(seqnum: u64, ins: Instruction)
    ensures
        valid_new_order(new_order_message(seqnum, ins)),
        direction_of(new_order_message(seqnum, ins).direction) == ins.direction,
        limit_or_market_of(new_order_message(seqnum, ins).limit_or_market) == ins.limit_or_market,
        time_in_force_of(new_order_message(seqnum, ins).time_in_force) == ins.time_in_force,
{
}

impl InvestorTest {
    /// The requests of the session: the login with sequence number 0, then
    /// each order in turn with sequence numbers 1, 2, ...
    pub fn to_request_list(&self) -> (requests: Vec<RpcOrderRequest>)
        ensures
            requests.len() == self.instructions.len() + 1,
            requests[0] == login_request(self.id, self.password),
            forall|k: int|
                0 <= k < self.instructions.len() ==> #[trigger] requests[k + 1] == instruction_request(
                    (k + 1) as u64,
                    self.instructions[k],
                ),
    {
        let mut requests: Vec<RpcOrderRequest> = Vec::new();
        let mut seqnum: u64 = 0;
        let login_req = RpcOrderRequest {
            request: Some(Request::Login(Login { seqnum, investor_id: self.id, password: self.password.clone() })),
        };
        requests.push(login_req);
        let mut i: usize = 0;
        while i < self.instructions.len()
            invariant
                i <= self.instructions.len(),
                seqnum == i,
                requests.len() == i + 1,
                requests[0] == login_request(self.id, self.password),
                forall|k: int| 0 <= k < i ==> #[trigger] requests[k + 1] == instruction_request((k + 1) as u64, self.instructions[k]),
            decreases self.instructions.len() - i,
        {
            let instruction = &self.instructions[i];
            seqnum = seqnum + 1;
            let new_order_req = RpcOrderRequest {
                request: Some(Request::NewOrder(NewOrder {
                    seqnum,
                    ticker: instruction.ticker.clone(),
                    direction: match instruction.direction {
                        Direction::Buy => RpcDirection::Buy.code(),
                        Direction::Sell => RpcDirection::Sell.code(),
                    },
                    size: instruction.size,
                    price: instruction.price,
                    limit_or_market: match instruction.limit_or_market {
                        LimitOrMarket::Limit => RpcLimitOrMarket::Limit.code(),
                        LimitOrMarket::Market => RpcLimitOrMarket::Market.code(),
                    },
                    time_in_force: match instruction.time_in_force {
                        TimeInForce::Day => RpcTimeInForce::Day.code(),
                        TimeInForce::IOC => RpcTimeInForce::Ioc.code(),
                    },
                })),
            };
            requests.push(new_order_req);
            i = i + 1;
        }
        requests
    }
}

} // verus!

use vstd::prelude::*;

verus! {

/// Identifier of an order, unique within a portal.
pub type OrderId = u64;

/// Number of shares.
pub type Size = u32;

/// Ticker symbol of a stock.
pub type Ticker = String;

/// Seconds since the UNIX epoch.
pub type Timestamp = u64;

/// A price, counted in the exchange's integer price unit.
pub type Price = u64;

/// An amount of cash, counted in the exchange's price unit.
pub type Cash = i128;

/// Identifier of an investor.
pub type InvId = u64;

pub type AccountName = String;

pub type Password = String;

pub type StockName = String;

/// Sequence number that an investor attaches to each request.
pub type SeqNum = u64;

/// Identifier of a market-data subscriber.
pub type SubId = u64;

/// A limit order rests at its price; a market order takes the best price
/// available when it arrives.
#[derive(Debug, PartialEq, Eq, Structural, Clone, Copy)]
pub enum LimitOrMarket {
    Limit,
    Market,
}

/// A day order may rest in the book; an immediate-or-cancel order never does.
#[derive(Debug, PartialEq, Eq, Structural, Clone, Copy)]
pub enum TimeInForce {
    Day,
    IOC,
}

/// Side of an order.
#[derive(Debug, PartialEq, Eq, Structural, Clone, Copy)]
pub enum Direction {
    Buy,
    Sell,
}

} // verus!

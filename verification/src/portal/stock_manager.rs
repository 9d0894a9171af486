//! Static information about the listed stocks: close price, lot size and
//! minimum price fluctuation.

use vstd::prelude::*;
use crate::types::common::{Price, Size, StockName, Ticker};
use crate::ticker_map::TickerMap;

verus! {

/// The static properties of one stock.
#[derive(Debug)]
pub struct StockRecord {
    pub close_price: Price,
    pub lot_size: Size,
    /// Minimum price fluctuation: valid prices are its multiples.
    pub mpf: Price,
    pub name: StockName,
}

/// The listed stocks by ticker.
pub struct StockManager {
    pub bind: TickerMap<StockRecord>,
}

/// A price is valid when it is a whole multiple of the minimum price
/// fluctuation (which must not be zero).
pub open spec fn valid_price(p: Price, mpf: Price) -> bool {
    mpf != 0 && p % mpf == 0
}

/// A size is valid when it is a positive whole number of lots.
pub open spec fn valid_size(size: Size, lot_size: Size) -> bool {
    size % lot_size == 0 && size > 0
}

/// An order for `ticker` at `price` for `size` shares is valid when the stock
/// is listed and both the price and the size are valid for it.
pub open spec fn valid_order(stocks: Map<Seq<char>, StockRecord>, ticker: Seq<char>, price: Price, size: Size) -> bool {
    &&& stocks.contains_key(ticker)
    &&& valid_price(price, stocks[ticker].mpf)
    &&& valid_size(size, stocks[ticker].lot_size)
}

/// Whether an order for `ticker` at `price` can be checked: its size is
/// checked against the lot size only when the stock is listed and the price
/// is valid, and that check needs a lot size of at least one share.
pub open spec fn order_checkable(stocks: Map<Seq<char>, StockRecord>, ticker: Seq<char>, price: Price) -> bool {
    stocks.contains_key(ticker) && valid_price(price, stocks[ticker].mpf) ==> stocks[ticker].lot_size > 0
}

impl StockManager {
    /// No stock yet.
    pub fn new() -> (m: Self)
        ensures
            m.bind@ == Map::<Seq<char>, StockRecord>::empty(),
    {
        StockManager { bind: TickerMap::new() }
    }

    /// Lists a stock, replacing any earlier record for the ticker.
    pub fn bind_stock(&mut self, ticker: Ticker, stock_rec: StockRecord)
        ensures
            final(self).bind@ == old(self).bind@.insert(ticker@, stock_rec),
    {
        self.bind.insert(ticker, stock_rec);
    }

    fn check_valid_price(p: &Price, mpf: &Price) -> (r: bool)
        ensures
            r == valid_price(*p, *mpf),
    {
        *mpf != 0 && *p % *mpf == 0
    }

    fn check_valid_size(size: &Size, lot_size: &Size) -> (r: bool)
        requires
            *lot_size > 0,
        ensures
            r == valid_size(*size, *lot_size),
    {
        *size % *lot_size == 0 && *size > 0
    }

    /// Whether an order is valid for a listed stock.
    pub fn check_valid_order(&self, ticker: &Ticker, price: &Price, size: &Size) -> (r: bool)
        requires
            order_checkable(self.bind@, ticker@, *price),
        ensures
            r == valid_order(self.bind@, ticker@, *price, *size),
    {
        match self.bind.get(ticker) {
            Some(stock_rec) => Self::check_valid_price(price, &stock_rec.mpf)
                && Self::check_valid_size(size, &stock_rec.lot_size),
            None => false,
        }
    }

    /// The close price of a listed stock.
    pub fn get_close_price(&self, ticker: &Ticker) -> (r: Option<Price>)
        ensures
            r == (if self.bind@.contains_key(ticker@) {
                Some(self.bind@[ticker@].close_price)
            } else {
                None::<Price>
            }),
    {
        match self.bind.get(ticker) {
            Some(stock_rec) => Some(stock_rec.close_price),
            None => None,
        }
    }
}

} // verus!

//! The order books of all listed tickers.

use vstd::prelude::*;
use super::orderbook::{BookState, OrderBook, request_outcome, best_buy_outcome, best_sell_outcome};
use crate::types::common::{Price, Ticker};
use crate::types::orderbook::{OrderbookLog, OrderbookRequest};
use crate::ticker_map::TickerMap;

verus! {

/// The order books by ticker.
pub struct OrderbookManager {
    pub bind: TickerMap<OrderBook>,
}

impl OrderbookManager {
    /// Every book is well formed.
    pub open spec fn wf(&self) -> bool {
        forall|t: Seq<char>| #[trigger] self.bind@.contains_key(t) ==> self.bind@[t].wf()
    }

    /// The states of the books by ticker.
    pub open spec fn books(&self) -> Map<Seq<char>, BookState> {
        self.bind@.map_values(|b: OrderBook| b@)
    }

    /// No book yet.
    pub fn new() -> (m: Self)
        ensures
            m.wf(),
            m.bind@ == Map::<Seq<char>, OrderBook>::empty(),
    {
        OrderbookManager { bind: TickerMap::new() }
    }

    /// Opens an empty book for a ticker, replacing any earlier one.
    pub fn add_orderbook(&mut self, ticker: Ticker)
        requires
            old(self).wf(),
        ensures
            final(self).wf(),
            final(self).bind@.dom() == old(self).bind@.dom().insert(ticker@),
            final(self).books() == old(self).books().insert(
                ticker@,
                BookState { ticker, buys: Seq::empty(), sells: Seq::empty(), deleted: Set::empty() },
            ),
    {
        let book = OrderBook::new(ticker.clone());
        self.bind.insert(ticker, book);
        assert(self.books() =~= old(self).books().insert(ticker@, book@));
    }

    /// Hands a request to the ticker's book and returns its logs; without a
    /// book for the ticker, nothing happens.
    pub fn handle_orderbook_request(&mut self, ticker: Ticker, req: OrderbookRequest) -> (logs: Vec<OrderbookLog>)
        requires
            old(self).wf(),
        ensures
            final(self).wf(),
            final(self).bind@.dom() == old(self).bind@.dom(),
            if old(self).bind@.contains_key(ticker@) {
                let r = request_outcome(old(self).books()[ticker@], req);
                &&& final(self).books() == old(self).books().insert(ticker@, r.0)
                &&& logs@ == r.1
            } else {
                &&& final(self).books() == old(self).books()
                &&& logs@ == Seq::<OrderbookLog>::empty()
            },
    {
        match self.bind.remove(&ticker) {
            Some(book) => {
                let mut book = book;
                let logs = book.handle_request(req);
                let ghost b = book;
                self.bind.insert(ticker, book);
                assert(self.books() =~= old(self).books().insert(ticker@, b@));
                assert(self.bind@.dom() =~= old(self).bind@.dom());
                logs
            },
            None => Vec::new(),
        }
    }

    /// The best buy price in the ticker's book, if any.
    pub fn best_buy_price(&mut self, ticker: &Ticker) -> (price: Option<Price>)
        requires
            old(self).wf(),
        ensures
            final(self).wf(),
            final(self).bind@.dom() == old(self).bind@.dom(),
            if old(self).bind@.contains_key(ticker@) {
                let r = best_buy_outcome(old(self).books()[ticker@]);
                &&& final(self).books() == old(self).books().insert(ticker@, r.1)
                &&& price == r.0
            } else {
                &&& final(self).books() == old(self).books()
                &&& price is None
            },
    {
        match self.bind.remove(ticker) {
            Some(book) => {
                let mut book = book;
                let price = book.best_buy_price();
                let ghost b = book;
                self.bind.insert(ticker.clone(), book);
                assert(self.books() =~= old(self).books().insert(ticker@, b@));
                assert(self.bind@.dom() =~= old(self).bind@.dom());
                price
            },
            None => None,
        }
    }

    /// The best sell price in the ticker's book, if any.
    pub fn best_sell_price(&mut self, ticker: &Ticker) -> (price: Option<Price>)
        requires
            old(self).wf(),
        ensures
            final(self).wf(),
            final(self).bind@.dom() == old(self).bind@.dom(),
            if old(self).bind@.contains_key(ticker@) {
                let r = best_sell_outcome(old(self).books()[ticker@]);
                &&& final(self).books() == old(self).books().insert(ticker@, r.1)
                &&& price == r.0
            } else {
                &&& final(self).books() == old(self).books()
                &&& price is None
            },
    {
        match self.bind.remove(ticker) {
            Some(book) => {
                let mut book = book;
                let price = book.best_sell_price();
                let ghost b = book;
                self.bind.insert(ticker.clone(), book);
                assert(self.books() =~= old(self).books().insert(ticker@, b@));
                assert(self.bind@.dom() =~= old(self).bind@.dom());
                price
            },
            None => None,
        }
    }
}

} // verus!

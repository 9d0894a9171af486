//! The portal as a state machine: its abstract state and what processing
//! each request does to it.

use vstd::prelude::*;
use super::account::{AccountView, covers};
use super::account_manager::{AccountsView, accounts_after, accounts_after_reservation};
use super::order_info::{OrderRecord, resting_outcome, resting_after_event};
use super::orderbook::{BookState, book_wf, request_outcome, best_buy_outcome, best_sell_outcome, dead_log};
use super::orderbook_laws::{book_ids_within, fill_of};
use super::stock_manager::{StockRecord, valid_order};
use super::utils::{cash_of, settlement};
use crate::types::account_manager::{AccountUpdate, PotentialOrder};
use crate::types::common::{Direction, InvId, LimitOrMarket, OrderId, Price, SeqNum, Size};
use crate::types::event::Event;
use crate::types::orderbook::{CancelOrderRequest, NewOrderRequest, OrderbookLog, OrderbookRequest};
use crate::types::portal::{PortalNewOrderRequest, PortalRequest, TaskView};
use crate::utils::response_order_id;

verus! {

/// The abstract state of a portal.
pub struct PortalState {
    /// The order book of each ticker.
    pub books: Map<Seq<char>, BookState>,
    /// Every market-data event so far, oldest first.
    pub history: Seq<Event>,
    /// The fixed properties of every accepted order.
    pub orders: Map<OrderId, OrderRecord>,
    /// The shares resting in a book, by order.
    pub resting: Map<OrderId, Size>,
    pub accounts: AccountsView,
    /// The listed stocks.
    pub stocks: Map<Seq<char>, StockRecord>,
    /// The id given to the last accepted order.
    pub last_order_id: OrderId,
}

/// The portal's invariant: every book is well formed and holds only
/// accepted orders.
pub open spec fn portal_wf(st: PortalState) -> bool {
    &&& forall|t: Seq<char>| #[trigger] st.books.contains_key(t) ==> book_wf(st.books[t])
    &&& forall|t: Seq<char>| #[trigger] st.books.contains_key(t) ==> book_ids_within(st.books[t], st.orders.dom())
}

/// The invariant only depends on the books and the orders.
pub proof fn lemma_wf_frame(a: PortalState, b: PortalState)
    requires
        portal_wf(a),
        a.books == b.books,
        a.orders.dom().subset_of(b.orders.dom()),
    ensures
        portal_wf(b),
{
    assert forall|t: Seq<char>| #[trigger] b.books.contains_key(t) implies book_wf(b.books[t])
        && book_ids_within(b.books[t], b.orders.dom()) by {
        assert(a.books.contains_key(t));
    }
}

/// Replacing one book by a well-formed book that holds only accepted orders
/// keeps the invariant.
pub proof fn lemma_wf_book_update(a: PortalState, t: Seq<char>, book: BookState)
    requires
        portal_wf(a),
        book_wf(book),
        book_ids_within(book, a.orders.dom()),
    ensures
        portal_wf(PortalState { books: a.books.insert(t, book), ..a }),
{
    let b = PortalState { books: a.books.insert(t, book), ..a };
    assert forall|u: Seq<char>| #[trigger] b.books.contains_key(u) implies book_wf(b.books[u])
        && book_ids_within(b.books[u], b.orders.dom()) by {
        if u != t {
            assert(a.books.contains_key(u));
        }
    }
}

pub open spec fn reason_invalid_price_or_size() -> Seq<char> {
    "Invalid new order request: Invalid price or size"@
}

pub open spec fn reason_insufficient() -> Seq<char> {
    "Invalid new order request: Insufficient cash or lot to complete the order"@
}

pub open spec fn reason_invalid_cancel() -> Seq<char> {
    "Invalid cancel order request"@
}

/// The accounts after applying `ups` in order.
pub open spec fn apply_updates(accounts: Map<InvId, AccountView>, ups: Seq<AccountUpdate>) -> Map<InvId, AccountView>
    decreases ups.len(),
{
    if ups.len() == 0 {
        accounts
    } else {
        accounts_after(apply_updates(accounts, ups.drop_last()), ups.last())
    }
}

/// Processing one log of a book: a response settles the owner's account and
/// goes to the owner; an event updates the history and the resting sizes and
/// goes to every subscriber.
pub open spec fn log_step(st: PortalState, log: OrderbookLog) -> (PortalState, TaskView) {
    match log {
        OrderbookLog::OrderLog(resp) => {
            let id = response_order_id(resp);
            let r = resting_outcome(st.resting, id);
            let rec = st.orders[id];
            (
                PortalState {
                    resting: r.1,
                    accounts: AccountsView {
                        accounts: apply_updates(st.accounts.accounts, settlement(resp, rec, r.0)),
                        ..st.accounts
                    },
                    ..st
                },
                TaskView::OrderResponse(rec.inv_id, resp),
            )
        },
        OrderbookLog::EventLog(e) => (
            PortalState { history: st.history.push(e), resting: resting_after_event(st.resting, e), ..st },
            TaskView::IncrementalEvent(e),
        ),
    }
}

/// Processing the logs of a book in order.
pub open spec fn logs_step(st: PortalState, logs: Seq<OrderbookLog>) -> (PortalState, Seq<TaskView>)
    decreases logs.len(),
{
    if logs.len() == 0 {
        (st, Seq::empty())
    } else {
        let r = logs_step(st, logs.drop_last());
        let l = log_step(r.0, logs.last());
        (l.0, r.1.push(l.1))
    }
}

/// Handing a request to the book of a ticker; without a book nothing happens.
pub open spec fn book_step(st: PortalState, ticker: Seq<char>, req: OrderbookRequest) -> (PortalState, Seq<OrderbookLog>) {
    if st.books.contains_key(ticker) {
        let r = request_outcome(st.books[ticker], req);
        (PortalState { books: st.books.insert(ticker, r.0), ..st }, r.1)
    } else {
        (st, Seq::empty())
    }
}

/// The price that a new order takes: the best opposite price in its book,
/// or the stock's close price when the book has none. Looking up the best
/// price may discard cancelled orders from the book.
pub open spec fn fill_in_price(st: PortalState, req: PortalNewOrderRequest) -> (PortalState, Price) {
    let t = req.ticker@;
    if st.books.contains_key(t) {
        let r = match req.direction {
            Direction::Buy => best_sell_outcome(st.books[t]),
            Direction::Sell => best_buy_outcome(st.books[t]),
        };
        (
            PortalState { books: st.books.insert(t, r.1), ..st },
            match r.0 {
                Some(p) => p,
                None => st.stocks[t].close_price,
            },
        )
    } else {
        (st, st.stocks[t].close_price)
    }
}

/// The price that a new order trades at: a market order takes the best
/// opposite price of its book (or the close price), as `fill_in_price`
/// says; a limit order keeps its own price and changes nothing.
pub open spec fn market_fill(st: PortalState, req: PortalNewOrderRequest) -> (PortalState, Price) {
    if req.limit_or_market == LimitOrMarket::Market {
        fill_in_price(st, req)
    } else {
        (st, req.price)
    }
}

/// The shares of an order of `size` that `logs` leave unfilled (never below
/// zero).
pub open spec fn open_after(logs: Seq<OrderbookLog>, id: OrderId, size: Size) -> Size
    decreases logs.len(),
{
    if logs.len() == 0 {
        size
    } else {
        let o = open_after(logs.drop_last(), id, size);
        let f = fill_of(logs.last(), id);
        if f <= o {
            (o - f) as Size
        } else {
            0
        }
    }
}

/// Whether the book's logs for a new order end with the order's death, so
/// that it never rests.
pub open spec fn died(logs: Seq<OrderbookLog>, id: OrderId) -> bool {
    logs.len() > 0 && logs.last() == dead_log(id)
}

/// The update that gives back what an order reserved for `open` shares: the
/// cash at its limit price for a buy, the shares for a sell.
pub open spec fn release(rec: OrderRecord, open: Size) -> AccountUpdate {
    match rec.direction {
        Direction::Buy => AccountUpdate::UpdCash(rec.inv_id, cash_of(open, rec.limit_price)),
        Direction::Sell => AccountUpdate::AddPos(rec.inv_id, rec.ticker, open),
    }
}

/// After a new order's logs are processed: when the order died without
/// resting, what it reserved for its unfilled shares goes back to its owner.
pub open spec fn refund_step(st: PortalState, logs: Seq<OrderbookLog>, id: OrderId, size: Size) -> PortalState {
    let open = open_after(logs, id, size);
    if died(logs, id) && open > 0 {
        PortalState {
            accounts: AccountsView {
                accounts: accounts_after(st.accounts.accounts, release(st.orders[id], open)),
                ..st.accounts
            },
            ..st
        }
    } else {
        st
    }
}

/// What a new order needs from its owner: the cash of a buy at its price,
/// or the shares of a sell.
pub open spec fn potential_order(req: PortalNewOrderRequest) -> PotentialOrder {
    match req.direction {
        Direction::Buy => PotentialOrder::PotentialBuy(cash_of(req.size, req.price)),
        Direction::Sell => PotentialOrder::PotentialSell(req.size, req.ticker),
    }
}

/// The request a book receives for an accepted order.
pub open spec fn book_order(order_id: OrderId, req: PortalNewOrderRequest) -> NewOrderRequest {
    NewOrderRequest {
        order_id,
        direction: req.direction,
        size: req.size,
        price: req.price,
        timestamp: req.timestamp,
        limit_or_market: req.limit_or_market,
        time_in_force: req.time_in_force,
    }
}

/// Processing a new order of investor `inv_id`.
///
/// An order with an invalid price or size for its stock is rejected. Otherwise
/// a market order takes the best opposite price (or the close price), and a
/// limit order keeps its price; if its owner cannot cover it at that price it
/// is rejected. Otherwise it gets the next order id, is acknowledged, its cash
/// or shares are reserved, it is recorded, and its book handles it; the book's
/// logs are processed in order, and when the order dies without resting, what
/// it reserved for its unfilled shares is given back.
pub open spec fn new_order_step(st: PortalState, inv_id: InvId, seqnum: SeqNum, req: PortalNewOrderRequest) -> (PortalState, Seq<TaskView>) {
    if !valid_order(st.stocks, req.ticker@, req.price, req.size) {
        (st, seq![TaskView::OrderReject(inv_id, seqnum, reason_invalid_price_or_size())])
    } else {
        let f = market_fill(st, req);
        let st1 = f.0;
        let req1 = PortalNewOrderRequest { price: f.1, ..req };
        let p = potential_order(req1);
        if !(st1.accounts.accounts.contains_key(inv_id) && covers(st1.accounts.accounts[inv_id], p)) {
            (st1, seq![TaskView::OrderReject(inv_id, seqnum, reason_insufficient())])
        } else {
            let order_id = (st1.last_order_id + 1) as OrderId;
            let st2 = PortalState {
                last_order_id: order_id,
                accounts: AccountsView {
                    accounts: accounts_after_reservation(st1.accounts.accounts, inv_id, p),
                    ..st1.accounts
                },
                orders: st1.orders.insert(
                    order_id,
                    OrderRecord {
                        inv_id,
                        ticker: req1.ticker,
                        direction: req1.direction,
                        limit_price: req1.price,
                        initial_size: req1.size,
                    },
                ),
                ..st1
            };
            let b = book_step(st2, req1.ticker@, OrderbookRequest::NewOrder(book_order(order_id, req1)));
            let l = logs_step(b.0, b.1);
            (refund_step(l.0, b.1, order_id, req1.size), seq![TaskView::OrderAck(inv_id, seqnum, order_id)] + l.1)
        }
    }
}

/// Processing a cancellation by investor `inv_id`: it is valid when the
/// order rests with shares left and belongs to the investor; then the
/// order's book handles it and its logs are processed; otherwise it is
/// rejected.
pub open spec fn cancel_step(st: PortalState, inv_id: InvId, seqnum: SeqNum, order_id: OrderId) -> (PortalState, Seq<TaskView>) {
    let r = resting_outcome(st.resting, order_id);
    let st1 = PortalState { resting: r.1, ..st };
    if r.0 is Some && st.orders.contains_key(order_id) && st.orders[order_id].inv_id == inv_id {
        let b = book_step(
            st1,
            st.orders[order_id].ticker@,
            OrderbookRequest::CancelOrder(CancelOrderRequest { order_id }),
        );
        logs_step(b.0, b.1)
    } else {
        (st1, seq![TaskView::CancelReject(inv_id, seqnum, reason_invalid_cancel())])
    }
}

/// Processing any request.
pub open spec fn request_step(st: PortalState, seqnum: SeqNum, req: PortalRequest) -> (PortalState, Seq<TaskView>) {
    match req {
        PortalRequest::EventHistory(sub_id) => (st, seq![TaskView::EventHistory(sub_id, st.history)]),
        PortalRequest::NewOrder(inv_id, r) => new_order_step(st, inv_id, seqnum, r),
        PortalRequest::CancelOrder(inv_id, order_id) => cancel_step(st, inv_id, seqnum, order_id),
    }
}

} // verus!

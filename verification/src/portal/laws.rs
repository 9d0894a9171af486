//! Properties of the portal that hold across requests: order ids only grow
//! and each accepted order gets a new one, the event history only grows,
//! and no book ever stays crossed.

use vstd::prelude::*;
use super::orderbook::{BookState, book_wf, buys_sorted, sells_sorted, request_outcome, best_buy_outcome, best_sell_outcome, pop_live_buy, pop_live_sell, lemma_pop_live_buy, lemma_pop_live_sell};
use super::orderbook_laws::{
    uncrossed, book_ids_distinct, book_ids_within, id_fresh, law_book_stays_uncrossed, law_request_ids,
    law_best_buy_price, law_best_sell_price, live_buy, live_sell, live_buy_orders, live_sell_orders,
    request_id,
};
use super::spec::{
    PortalState, portal_wf, log_step, logs_step, book_step, market_fill, new_order_step, cancel_step,
    request_step, book_order,
};
use crate::types::common::{Direction, OrderId};
use crate::types::orderbook::{CancelOrderRequest, OrderbookLog, OrderbookRequest};
use crate::types::portal::{PortalNewOrderRequest, PortalRequest, TaskView};

verus! {

/// Processing logs changes neither the books, nor the orders, nor the
/// stocks, nor the last order id; it only appends to the history; and every
/// task it makes is a response for an owner or an event for subscribers.
pub proof fn lemma_logs_step_frame(st: PortalState, logs: Seq<OrderbookLog>)
    ensures
        ({
            let r = logs_step(st, logs);
            &&& r.0.books == st.books
            &&& r.0.orders == st.orders
            &&& r.0.stocks == st.stocks
            &&& r.0.last_order_id == st.last_order_id
            &&& st.history.is_prefix_of(r.0.history)
            &&& r.1.len() == logs.len()
            &&& forall|k: int| 0 <= k < r.1.len() ==> (#[trigger] r.1[k] is OrderResponse || r.1[k] is IncrementalEvent)
        }),
    decreases logs.len(),
{
    if logs.len() > 0 {
        lemma_logs_step_frame(st, logs.drop_last());
        let r = logs_step(st, logs.drop_last());
        let l = log_step(r.0, logs.last());
        let all = r.1.push(l.1);
        assert forall|k: int| 0 <= k < all.len() implies (#[trigger] all[k] is OrderResponse || all[k] is IncrementalEvent) by {
            if k < r.1.len() {
                assert(all[k] == r.1[k]);
            }
        }
    }
}

/// The fill-in of a new order's price changes only the order's book.
pub(crate) proof fn lemma_fill_in_frame(st: PortalState, req: PortalNewOrderRequest)
    ensures
        ({
            let f = market_fill(st, req).0;
            &&& f.orders == st.orders
            &&& f.stocks == st.stocks
            &&& f.last_order_id == st.last_order_id
            &&& f.history == st.history
            &&& f.accounts == st.accounts
        }),
{
}

/// **Law: order ids only grow, and each accepted order gets a new one.**
/// Processing any request leaves the last order id as it was or one higher;
/// an acknowledgement carries the new last order id, which is higher than
/// every id given before.
pub proof fn law_order_ids_increase(st: PortalState, seqnum: u64, req: PortalRequest)
    requires
        st.last_order_id < u64::MAX,
    ensures
        ({
            let (st2, tasks) = request_step(st, seqnum, req);
            &&& st2.last_order_id == st.last_order_id || st2.last_order_id == st.last_order_id + 1
            &&& forall|k: int| 0 <= k < tasks.len() ==> (#[trigger] tasks[k] matches TaskView::OrderAck(_, _, id) ==> {
                &&& id == st2.last_order_id
                &&& id > st.last_order_id
            })
        }),
{
    match req {
        PortalRequest::EventHistory(_) => {},
        PortalRequest::NewOrder(inv_id, r) => {
            let f = market_fill(st, r);
            lemma_fill_in_frame(st, r);
            let (st2, tasks) = new_order_step(st, inv_id, seqnum, r);
            if super::stock_manager::valid_order(st.stocks, r.ticker@, r.price, r.size) {
                let st1 = f.0;
                let req1 = PortalNewOrderRequest { price: f.1, ..r };
                let p = super::spec::potential_order(req1);
                if st1.accounts.accounts.contains_key(inv_id) && super::account::covers(st1.accounts.accounts[inv_id], p) {
                    let order_id = (st1.last_order_id + 1) as OrderId;
                    let st2a = PortalState {
                        last_order_id: order_id,
                        accounts: super::account_manager::AccountsView {
                            accounts: super::account_manager::accounts_after_reservation(st1.accounts.accounts, inv_id, p),
                            ..st1.accounts
                        },
                        orders: st1.orders.insert(
                            order_id,
                            super::order_info::OrderRecord {
                                inv_id,
                                ticker: req1.ticker,
                                direction: req1.direction,
                                limit_price: req1.price,
                                initial_size: req1.size,
                            },
                        ),
                        ..st1
                    };
                    let b = book_step(st2a, req1.ticker@, OrderbookRequest::NewOrder(book_order(order_id, req1)));
                    lemma_logs_step_frame(b.0, b.1);
                    let l = logs_step(b.0, b.1);
                    assert forall|k: int| 0 <= k < tasks.len() implies (#[trigger] tasks[k] matches TaskView::OrderAck(_, _, id) ==> {
                        &&& id == st2.last_order_id
                        &&& id > st.last_order_id
                    }) by {
                        if k > 0 {
                            assert(tasks[k] == l.1[k - 1]);
                        }
                    }
                }
            }
        },
        PortalRequest::CancelOrder(inv_id, order_id) => {
            let r = super::order_info::resting_outcome(st.resting, order_id);
            let st1 = PortalState { resting: r.1, ..st };
            if r.0 is Some && st.orders.contains_key(order_id) && st.orders[order_id].inv_id == inv_id {
                let b = book_step(
                    st1,
                    st.orders[order_id].ticker@,
                    OrderbookRequest::CancelOrder(CancelOrderRequest { order_id }),
                );
                lemma_logs_step_frame(b.0, b.1);
            }
        },
    }
}

/// **Law: the event history only grows.** Processing any request keeps
/// every earlier event, in order, at the front of the history.
pub proof fn law_history_grows(st: PortalState, seqnum: u64, req: PortalRequest)
    ensures
        st.history.is_prefix_of(request_step(st, seqnum, req).0.history),
{
    match req {
        PortalRequest::EventHistory(_) => {
            assert(st.history.is_prefix_of(st.history)) by {
                assert(st.history.subrange(0, st.history.len() as int) =~= st.history);
            }
        },
        PortalRequest::NewOrder(inv_id, r) => {
            let f = market_fill(st, r);
            lemma_fill_in_frame(st, r);
            assert(st.history.subrange(0, st.history.len() as int) =~= st.history);
            if super::stock_manager::valid_order(st.stocks, r.ticker@, r.price, r.size) {
                let st1 = f.0;
                let req1 = PortalNewOrderRequest { price: f.1, ..r };
                let p = super::spec::potential_order(req1);
                if st1.accounts.accounts.contains_key(inv_id) && super::account::covers(st1.accounts.accounts[inv_id], p) {
                    let order_id = (st1.last_order_id + 1) as OrderId;
                    let st2a = PortalState {
                        last_order_id: order_id,
                        accounts: super::account_manager::AccountsView {
                            accounts: super::account_manager::accounts_after_reservation(st1.accounts.accounts, inv_id, p),
                            ..st1.accounts
                        },
                        orders: st1.orders.insert(
                            order_id,
                            super::order_info::OrderRecord {
                                inv_id,
                                ticker: req1.ticker,
                                direction: req1.direction,
                                limit_price: req1.price,
                                initial_size: req1.size,
                            },
                        ),
                        ..st1
                    };
                    let b = book_step(st2a, req1.ticker@, OrderbookRequest::NewOrder(book_order(order_id, req1)));
                    lemma_logs_step_frame(b.0, b.1);
                }
            }
        },
        PortalRequest::CancelOrder(inv_id, order_id) => {
            let r = super::order_info::resting_outcome(st.resting, order_id);
            let st1 = PortalState { resting: r.1, ..st };
            assert(st.history.subrange(0, st.history.len() as int) =~= st.history);
            if r.0 is Some && st.orders.contains_key(order_id) && st.orders[order_id].inv_id == inv_id {
                let b = book_step(
                    st1,
                    st.orders[order_id].ticker@,
                    OrderbookRequest::CancelOrder(CancelOrderRequest { order_id }),
                );
                lemma_logs_step_frame(b.0, b.1);
            }
        },
    }
}


/// Ids from zero up to `bound`.
pub open spec fn ids_up_to(bound: OrderId) -> Set<OrderId> {
    Set::new(|x: OrderId| x <= bound)
}

/// Every book is uncrossed, holds distinct ids, and holds only ids already
/// given to accepted orders.
pub open spec fn books_sound(st: PortalState) -> bool {
    forall|t: Seq<char>|
        #[trigger] st.books.contains_key(t) ==> {
            &&& uncrossed(st.books[t])
            &&& book_ids_distinct(st.books[t])
            &&& book_ids_within(st.books[t], ids_up_to(st.last_order_id))
        }
}

/// Looking up the best price keeps a sound book sound and well formed.
pub(crate) proof fn lemma_best_outcomes_sound(s: BookState, ids: Set<OrderId>)
    requires
        book_wf(s),
        uncrossed(s),
        book_ids_distinct(s),
        book_ids_within(s, ids),
    ensures
        book_wf(best_buy_outcome(s).1),
        uncrossed(best_buy_outcome(s).1),
        book_ids_distinct(best_buy_outcome(s).1),
        book_ids_within(best_buy_outcome(s).1, ids),
        book_wf(best_sell_outcome(s).1),
        uncrossed(best_sell_outcome(s).1),
        book_ids_distinct(best_sell_outcome(s).1),
        book_ids_within(best_sell_outcome(s).1, ids),
{
    super::orderbook_laws::lemma_best_price_ids(s, ids);
    law_best_buy_price(s);
    law_best_sell_price(s);
    lemma_pop_live_buy(s.buys, s.deleted);
    lemma_pop_live_sell(s.sells, s.deleted);
    let tb = best_buy_outcome(s).1;
    let ts = best_sell_outcome(s).1;
    let nb = s.buys.len() - tb.buys.len();
    let ns = s.sells.len() - ts.sells.len();
    assert forall|i: int| 0 <= i < tb.buys.len() implies #[trigger] tb.buys[i] == s.buys[i + nb] by {
        let p = pop_live_buy(s.buys, s.deleted);
        if p.0 is Some {
            if i > 0 {
                assert(tb.buys[i] == p.1[i - 1]);
            }
        } else {
            assert(tb.buys[i] == p.1[i]);
        }
    }
    assert forall|j: int| 0 <= j < ts.sells.len() implies #[trigger] ts.sells[j] == s.sells[j + ns] by {
        let p = pop_live_sell(s.sells, s.deleted);
        if p.0 is Some {
            if j > 0 {
                assert(ts.sells[j] == p.1[j - 1]);
            }
        } else {
            assert(ts.sells[j] == p.1[j]);
        }
    }
    assert(buys_sorted(tb.buys)) by {
        assert forall|i: int, j: int| 0 <= i < j < tb.buys.len() implies !crate::types::order::buy_outranks(#[trigger] tb.buys[j], #[trigger] tb.buys[i]) by {
            assert(tb.buys[i] == s.buys[i + nb] && tb.buys[j] == s.buys[j + nb]);
        }
    }
    assert(sells_sorted(ts.sells)) by {
        assert forall|i: int, j: int| 0 <= i < j < ts.sells.len() implies !crate::types::order::sell_outranks(#[trigger] ts.sells[j], #[trigger] ts.sells[i]) by {
            assert(ts.sells[i] == s.sells[i + ns] && ts.sells[j] == s.sells[j + ns]);
        }
    }
    assert forall|i: int| 0 <= i < tb.buys.len() implies #[trigger] tb.buys[i].size > 0 by {
        assert(tb.buys[i] == s.buys[i + nb]);
    }
    assert forall|j: int| 0 <= j < ts.sells.len() implies #[trigger] ts.sells[j].size > 0 by {
        assert(ts.sells[j] == s.sells[j + ns]);
    }
    assert forall|i: int, j: int| 0 <= i < j < tb.buys.len() implies #[trigger] tb.buys[i].order_id != #[trigger] tb.buys[j].order_id by {
        assert(tb.buys[i] == s.buys[i + nb] && tb.buys[j] == s.buys[j + nb]);
    }
    assert forall|i: int, j: int| 0 <= i < tb.buys.len() && 0 <= j < tb.sells.len() implies #[trigger] tb.buys[i].order_id != #[trigger] tb.sells[j].order_id by {
        assert(tb.buys[i] == s.buys[i + nb]);
    }
    assert forall|i: int, j: int| 0 <= i < j < ts.sells.len() implies #[trigger] ts.sells[i].order_id != #[trigger] ts.sells[j].order_id by {
        assert(ts.sells[i] == s.sells[i + ns] && ts.sells[j] == s.sells[j + ns]);
    }
    assert forall|i: int, j: int| 0 <= i < ts.buys.len() && 0 <= j < ts.sells.len() implies #[trigger] ts.buys[i].order_id != #[trigger] ts.sells[j].order_id by {
        assert(ts.sells[j] == s.sells[j + ns]);
    }
    assert forall|i: int, j: int| live_buy(tb, i) && live_sell(tb, j) implies #[trigger] tb.buys[i].price < #[trigger] tb.sells[j].price by {
        assert(live_buy_orders(tb).contains(tb.buys[i]));
        assert(live_sell_orders(tb).contains(tb.sells[j]));
        let i0 = choose|i0: int| live_buy(s, i0) && s.buys[i0] == tb.buys[i];
        let j0 = choose|j0: int| live_sell(s, j0) && s.sells[j0] == tb.sells[j];
        assert(live_buy(s, i0) && live_sell(s, j0));
    }
    assert forall|i: int, j: int| live_buy(ts, i) && live_sell(ts, j) implies #[trigger] ts.buys[i].price < #[trigger] ts.sells[j].price by {
        assert(live_buy_orders(ts).contains(ts.buys[i]));
        assert(live_sell_orders(ts).contains(ts.sells[j]));
        let i0 = choose|i0: int| live_buy(s, i0) && s.buys[i0] == ts.buys[i];
        let j0 = choose|j0: int| live_sell(s, j0) && s.sells[j0] == ts.sells[j];
        assert(live_buy(s, i0) && live_sell(s, j0));
    }
}


/// A book sound for ids up to `a` is sound for ids up to any `b >= a`.
proof fn lemma_within_mono(s: BookState, a: OrderId, b: OrderId)
    requires
        book_ids_within(s, ids_up_to(a)),
        a <= b,
    ensures
        book_ids_within(s, ids_up_to(b)),
{
    assert forall|i: int| 0 <= i < s.buys.len() implies ids_up_to(b).contains(#[trigger] s.buys[i].order_id) by {
        assert(ids_up_to(a).contains(s.buys[i].order_id));
    }
    assert forall|j: int| 0 <= j < s.sells.len() implies ids_up_to(b).contains(#[trigger] s.sells[j].order_id) by {
        assert(ids_up_to(a).contains(s.sells[j].order_id));
    }
}

/// Handing a request to a sound, well-formed book whose new order (if any)
/// carries an id above every resting id keeps the book sound for ids up to
/// `bound`, when the request's id is at most `bound`.
proof fn lemma_book_request_sound(s: BookState, req: OrderbookRequest, bound: OrderId)
    requires
        book_wf(s),
        uncrossed(s),
        book_ids_distinct(s),
        req is NewOrder ==> request_id(req) == bound && book_ids_within(s, ids_up_to((bound - 1) as OrderId)) && bound > 0,
        req is CancelOrder ==> book_ids_within(s, ids_up_to(bound)),
    ensures
        uncrossed(request_outcome(s, req).0),
        book_ids_distinct(request_outcome(s, req).0),
        book_ids_within(request_outcome(s, req).0, ids_up_to(bound)),
{
    match req {
        OrderbookRequest::NewOrder(r) => {
            assert(id_fresh(s, r.order_id)) by {
                assert forall|i: int| 0 <= i < s.buys.len() implies #[trigger] s.buys[i].order_id != r.order_id by {
                    assert(ids_up_to((bound - 1) as OrderId).contains(s.buys[i].order_id));
                }
                assert forall|j: int| 0 <= j < s.sells.len() implies #[trigger] s.sells[j].order_id != r.order_id by {
                    assert(ids_up_to((bound - 1) as OrderId).contains(s.sells[j].order_id));
                }
            }
            law_book_stays_uncrossed(s, req);
            lemma_within_mono(s, (bound - 1) as OrderId, bound);
            law_request_ids(s, req, ids_up_to(bound));
        },
        OrderbookRequest::CancelOrder(c) => {
            law_book_stays_uncrossed(s, req);
        },
    }
}

/// **Law: no book ever stays crossed.** In a portal whose books are all
/// uncrossed, hold distinct ids and hold only ids already given out, every
/// request leaves every book uncrossed, with distinct ids, holding only ids
/// given out by then.
pub proof fn law_books_stay_sound(st: PortalState, seqnum: u64, req: PortalRequest)
    requires
        portal_wf(st),
        books_sound(st),
        st.last_order_id < u64::MAX,
    ensures
        books_sound(request_step(st, seqnum, req).0),
{
    match req {
        PortalRequest::EventHistory(_) => {},
        PortalRequest::NewOrder(inv_id, r) => {
            if super::stock_manager::valid_order(st.stocks, r.ticker@, r.price, r.size) {
                let f = market_fill(st, r);
                lemma_fill_in_frame(st, r);
                let st1 = f.0;
                let t = r.ticker@;
                // After the price lookup every book is still sound and well formed.
                assert forall|u: Seq<char>| #[trigger] st1.books.contains_key(u) implies {
                    &&& book_wf(st1.books[u])
                    &&& uncrossed(st1.books[u])
                    &&& book_ids_distinct(st1.books[u])
                    &&& book_ids_within(st1.books[u], ids_up_to(st.last_order_id))
                } by {
                    assert(st.books.contains_key(u));
                    if u == t {
                        lemma_best_outcomes_sound(st.books[t], ids_up_to(st.last_order_id));
                    }
                }
                let req1 = PortalNewOrderRequest { price: f.1, ..r };
                let p = super::spec::potential_order(req1);
                if st1.accounts.accounts.contains_key(inv_id) && super::account::covers(st1.accounts.accounts[inv_id], p) {
                    let order_id = (st1.last_order_id + 1) as OrderId;
                    let st2a = PortalState {
                        last_order_id: order_id,
                        accounts: super::account_manager::AccountsView {
                            accounts: super::account_manager::accounts_after_reservation(st1.accounts.accounts, inv_id, p),
                            ..st1.accounts
                        },
                        orders: st1.orders.insert(
                            order_id,
                            super::order_info::OrderRecord {
                                inv_id,
                                ticker: req1.ticker,
                                direction: req1.direction,
                                limit_price: req1.price,
                                initial_size: req1.size,
                            },
                        ),
                        ..st1
                    };
                    let breq = OrderbookRequest::NewOrder(book_order(order_id, req1));
                    let b = book_step(st2a, t, breq);
                    lemma_logs_step_frame(b.0, b.1);
                    assert forall|u: Seq<char>| #[trigger] b.0.books.contains_key(u) implies {
                        &&& uncrossed(b.0.books[u])
                        &&& book_ids_distinct(b.0.books[u])
                        &&& book_ids_within(b.0.books[u], ids_up_to(order_id))
                    } by {
                        assert(st1.books.contains_key(u));
                        if u == t {
                            lemma_book_request_sound(st1.books[t], breq, order_id);
                        } else {
                            lemma_within_mono(st1.books[u], st.last_order_id, order_id);
                        }
                    }
                }
            }
        },
        PortalRequest::CancelOrder(inv_id, order_id) => {
            let r = super::order_info::resting_outcome(st.resting, order_id);
            let st1 = PortalState { resting: r.1, ..st };
            if r.0 is Some && st.orders.contains_key(order_id) && st.orders[order_id].inv_id == inv_id {
                let t = st.orders[order_id].ticker@;
                let breq = OrderbookRequest::CancelOrder(CancelOrderRequest { order_id });
                let b = book_step(st1, t, breq);
                lemma_logs_step_frame(b.0, b.1);
                assert forall|u: Seq<char>| #[trigger] b.0.books.contains_key(u) implies {
                    &&& uncrossed(b.0.books[u])
                    &&& book_ids_distinct(b.0.books[u])
                    &&& book_ids_within(b.0.books[u], ids_up_to(st.last_order_id))
                } by {
                    assert(st.books.contains_key(u));
                    if u == t {
                        lemma_book_request_sound(st.books[t], breq, st.last_order_id);
                    }
                }
            }
        },
    }
}


/// **Law: a rejected request changes no account, order, history or order
/// id.** When processing a request yields only a rejection, the accounts,
/// the accepted orders, the event history and the last order id are what
/// they were.
pub proof fn law_rejection_changes_no_account(st: PortalState, seqnum: u64, req: PortalRequest)
    ensures
        ({
            let (st2, tasks) = request_step(st, seqnum, req);
            (tasks.len() == 1 && (tasks[0] is OrderReject || tasks[0] is CancelReject)) ==> {
                &&& st2.accounts == st.accounts
                &&& st2.orders == st.orders
                &&& st2.history == st.history
                &&& st2.last_order_id == st.last_order_id
            }
        }),
{
    match req {
        PortalRequest::EventHistory(_) => {},
        PortalRequest::NewOrder(inv_id, r) => {
            lemma_fill_in_frame(st, r);
            let f = market_fill(st, r);
            if super::stock_manager::valid_order(st.stocks, r.ticker@, r.price, r.size) {
                let st1 = f.0;
                let req1 = PortalNewOrderRequest { price: f.1, ..r };
                let p = super::spec::potential_order(req1);
                if st1.accounts.accounts.contains_key(inv_id) && super::account::covers(st1.accounts.accounts[inv_id], p) {
                    let tasks = request_step(st, seqnum, req).1;
                    assert(tasks[0] is OrderAck);
                }
            }
        },
        PortalRequest::CancelOrder(inv_id, order_id) => {
            let r = super::order_info::resting_outcome(st.resting, order_id);
            let st1 = PortalState { resting: r.1, ..st };
            if r.0 is Some && st.orders.contains_key(order_id) && st.orders[order_id].inv_id == inv_id {
                let b = book_step(
                    st1,
                    st.orders[order_id].ticker@,
                    OrderbookRequest::CancelOrder(CancelOrderRequest { order_id }),
                );
                lemma_logs_step_frame(b.0, b.1);
            }
        },
    }
}

/// **Law: a new portal's books are sound.** Every book that `Portal::new`
/// opens is empty, so it is uncrossed, holds distinct ids and holds no id.
pub proof fn law_new_books_sound(stocks: Seq<(crate::types::common::Ticker, super::stock_manager::StockRecord)>)
    ensures
        forall|t: Seq<char>| #[trigger] crate::portal::books_of(stocks).contains_key(t) ==> {
            &&& uncrossed(crate::portal::books_of(stocks)[t])
            &&& book_ids_distinct(crate::portal::books_of(stocks)[t])
            &&& book_ids_within(crate::portal::books_of(stocks)[t], ids_up_to(0))
        },
{
    assert forall|t: Seq<char>| #[trigger] crate::portal::books_of(stocks).contains_key(t) implies {
        &&& uncrossed(crate::portal::books_of(stocks)[t])
        &&& book_ids_distinct(crate::portal::books_of(stocks)[t])
        &&& book_ids_within(crate::portal::books_of(stocks)[t], ids_up_to(0))
    } by {
        crate::portal::lemma_books_of_empty(stocks, t);
    }
}
/// **Law: what a dying order gets back is the reserve of exactly its
/// unfilled shares.** When the logs fill no more of an order than its size,
/// the shares left open plus the shares filled make up its size.
pub proof fn law_open_plus_filled(logs: Seq<OrderbookLog>, id: OrderId, size: crate::types::common::Size)
    requires
        super::orderbook_laws::filled(logs, id) <= size,
    ensures
        super::spec::open_after(logs, id, size) + super::orderbook_laws::filled(logs, id) == size,
    decreases logs.len(),
{
    if logs.len() > 0 {
        law_open_plus_filled(logs.drop_last(), id, size);
    }
}

/// **Law: a limit order keeps its price.** When a new limit order is
/// accepted, it is recorded, and handed to its book, with the investor's own
/// price; only a market order takes the best opposite price.
pub proof fn law_limit_order_keeps_price(st: PortalState, seqnum: u64, inv_id: crate::types::common::InvId, r: PortalNewOrderRequest)
    requires
        r.limit_or_market == crate::types::common::LimitOrMarket::Limit,
        st.last_order_id < u64::MAX,
    ensures
        ({
            let st2 = request_step(st, seqnum, PortalRequest::NewOrder(inv_id, r)).0;
            st2.last_order_id != st.last_order_id ==> {
                &&& st2.orders.contains_key(st2.last_order_id)
                &&& st2.orders[st2.last_order_id].limit_price == r.price
                &&& st2.orders[st2.last_order_id].direction == r.direction
                &&& st2.orders[st2.last_order_id].initial_size == r.size
            }
        }),
{
    if super::stock_manager::valid_order(st.stocks, r.ticker@, r.price, r.size) {
        let p = super::spec::potential_order(r);
        if st.accounts.accounts.contains_key(inv_id) && super::account::covers(st.accounts.accounts[inv_id], p) {
            let order_id = (st.last_order_id + 1) as OrderId;
            let st2a = PortalState {
                last_order_id: order_id,
                accounts: super::account_manager::AccountsView {
                    accounts: super::account_manager::accounts_after_reservation(st.accounts.accounts, inv_id, p),
                    ..st.accounts
                },
                orders: st.orders.insert(
                    order_id,
                    super::order_info::OrderRecord {
                        inv_id,
                        ticker: r.ticker,
                        direction: r.direction,
                        limit_price: r.price,
                        initial_size: r.size,
                    },
                ),
                ..st
            };
            let b = book_step(st2a, r.ticker@, OrderbookRequest::NewOrder(book_order(order_id, r)));
            lemma_logs_step_frame(b.0, b.1);
        }
    }
}

} // verus!

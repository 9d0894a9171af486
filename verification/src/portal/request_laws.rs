//! What the portal's answers to requests mean: the event history is exactly
//! what was published, in order; a market order takes the best opposite
//! price; a seller gives up exactly the shares sold, and a buyer pays exactly
//! for the shares bought.

use vstd::prelude::*;
use super::account::AccountView;
use super::laws::{books_sound, lemma_logs_step_frame, lemma_fill_in_frame};
use super::order_info::resting_outcome;
use super::orderbook::{match_buy, match_sell, fill_logs, dead_log, new_buy_outcome, new_sell_outcome};
use super::orderbook_laws::{live_buy, live_sell, law_best_buy_price, law_best_sell_price, filled, fills_at_most};
use super::resting_laws::{
    buys_live_id, sells_live_id, resting_after_logs, lemma_logs_step_resting, resting_tracks_books, lemma_tracking_facts,
};
use super::spec::{
    PortalState, portal_wf, log_step, logs_step, book_step, request_step, market_fill, book_order, refund_step,
    apply_updates,
};
use super::utils::settlement;
use crate::types::account_manager::AccountUpdate;
use crate::types::common::{Direction, InvId, LimitOrMarket, OrderId, Size};
use crate::types::event::Event;
use crate::types::order::{BuyOrder, SellOrder};
use crate::types::orderbook::{CancelOrderRequest, NewOrderRequest, OrderbookLog, OrderbookRequest};
use crate::types::portal::{OrderResponse, PortalNewOrderRequest, PortalRequest, TaskView};
use crate::utils::{response_order_id, update_inv_id};

verus! {

/// The events that `tasks` publish to every subscriber, in order.
pub open spec fn published(tasks: Seq<TaskView>) -> Seq<Event>
    decreases tasks.len(),
{
    if tasks.len() == 0 {
        Seq::empty()
    } else {
        let p = published(tasks.drop_last());
        match tasks.last() {
            TaskView::IncrementalEvent(e) => p.push(e),
            _ => p,
        }
    }
}

proof fn lemma_published_concat(a: Seq<TaskView>, b: Seq<TaskView>)
    ensures
        published(a + b) == published(a) + published(b),
    decreases b.len(),
{
    if b.len() == 0 {
        assert(a + b =~= a);
        assert(published(a) + published(b) =~= published(a));
    } else {
        lemma_published_concat(a, b.drop_last());
        assert((a + b).drop_last() =~= a + b.drop_last());
        assert((a + b).last() == b.last());
        match b.last() {
            TaskView::IncrementalEvent(e) => {
                assert(published(a) + published(b.drop_last()).push(e) =~= (published(a) + published(b.drop_last())).push(e));
            },
            _ => {},
        }
    }
}

proof fn lemma_published_one(t: TaskView)
    ensures
        published(seq![t]) == (match t {
            TaskView::IncrementalEvent(e) => seq![e],
            _ => Seq::<Event>::empty(),
        }),
{
    reveal_with_fuel(published, 2);
    assert(seq![t].drop_last() =~= Seq::<TaskView>::empty());
    match t {
        TaskView::IncrementalEvent(e) => {
            assert(Seq::<Event>::empty().push(e) =~= seq![e]);
        },
        _ => {},
    }
}

/// Processing logs records in the history exactly the events it publishes.
proof fn lemma_logs_step_published(st: PortalState, logs: Seq<OrderbookLog>)
    ensures
        logs_step(st, logs).0.history == st.history + published(logs_step(st, logs).1),
    decreases logs.len(),
{
    if logs.len() == 0 {
        assert(st.history + Seq::<Event>::empty() =~= st.history);
    } else {
        lemma_logs_step_published(st, logs.drop_last());
        let r = logs_step(st, logs.drop_last());
        let l = log_step(r.0, logs.last());
        let all = r.1.push(l.1);
        assert(all.drop_last() =~= r.1);
        match logs.last() {
            OrderbookLog::EventLog(e) => {
                assert(st.history + published(r.1).push(e) =~= (st.history + published(r.1)).push(e));
            },
            OrderbookLog::OrderLog(_) => {},
        }
    }
}

/// **Law: the history is what was published.** After any request, the
/// event history is the history before followed by exactly the events that
/// the request's tasks publish to every subscriber, in order: every event a
/// subscriber receives is recorded, and nothing else is.
pub proof fn law_history_is_published(st: PortalState, seqnum: u64, req: PortalRequest)
    ensures
        request_step(st, seqnum, req).0.history == st.history + published(request_step(st, seqnum, req).1),
{
    let (st2, tasks) = request_step(st, seqnum, req);
    match req {
        PortalRequest::EventHistory(sub) => {
            lemma_published_one(tasks[0]);
            assert(tasks == seq![tasks[0]]);
            assert(st.history + Seq::<Event>::empty() =~= st.history);
        },
        PortalRequest::NewOrder(inv_id, r) => {
            let f = market_fill(st, r);
            let st1 = f.0;
            if super::stock_manager::valid_order(st.stocks, r.ticker@, r.price, r.size) {
                let req1 = PortalNewOrderRequest { price: f.1, ..r };
                let p = super::spec::potential_order(req1);
                if st1.accounts.accounts.contains_key(inv_id) && super::account::covers(st1.accounts.accounts[inv_id], p) {
                    let order_id = (st1.last_order_id + 1) as OrderId;
                    let st2a = PortalState {
                        last_order_id: order_id,
                        accounts: super::account_manager::AccountsView {
                            accounts: super::account_manager::accounts_after_reservation(st1.accounts.accounts, inv_id, p),
                            ..st1.accounts
                        },
                        orders: st1.orders.insert(
                            order_id,
                            super::order_info::OrderRecord {
                                inv_id,
                                ticker: req1.ticker,
                                direction: req1.direction,
                                limit_price: req1.price,
                                initial_size: req1.size,
                            },
                        ),
                        ..st1
                    };
                    let b = book_step(st2a, req1.ticker@, OrderbookRequest::NewOrder(book_order(order_id, req1)));
                    lemma_logs_step_published(b.0, b.1);
                    let l = logs_step(b.0, b.1);
                    let ack = seq![TaskView::OrderAck(inv_id, seqnum, order_id)];
                    lemma_published_concat(ack, l.1);
                    lemma_published_one(ack[0]);
                    assert(ack == seq![ack[0]]);
                    assert(published(ack) + published(l.1) =~= published(l.1));
                } else {
                    lemma_published_one(tasks[0]);
                    assert(tasks == seq![tasks[0]]);
                    assert(st.history + Seq::<Event>::empty() =~= st.history);
                }
            } else {
                lemma_published_one(tasks[0]);
                assert(tasks == seq![tasks[0]]);
                assert(st.history + Seq::<Event>::empty() =~= st.history);
            }
        },
        PortalRequest::CancelOrder(inv_id, order_id) => {
            let ro = super::order_info::resting_outcome(st.resting, order_id);
            let st1 = PortalState { resting: ro.1, ..st };
            if ro.0 is Some && st.orders.contains_key(order_id) && st.orders[order_id].inv_id == inv_id {
                let b = book_step(
                    st1,
                    st.orders[order_id].ticker@,
                    OrderbookRequest::CancelOrder(CancelOrderRequest { order_id }),
                );
                lemma_logs_step_published(b.0, b.1);
            } else {
                lemma_published_one(tasks[0]);
                assert(tasks == seq![tasks[0]]);
                assert(st.history + Seq::<Event>::empty() =~= st.history);
            }
        },
    }
}

/// A run of requests, in order: the state after them, and all the tasks
/// they leave, in order.
pub open spec fn run(st: PortalState, reqs: Seq<(u64, PortalRequest)>) -> (PortalState, Seq<TaskView>)
    decreases reqs.len(),
{
    if reqs.len() == 0 {
        (st, Seq::empty())
    } else {
        let r = run(st, reqs.drop_last());
        let s = request_step(r.0, reqs.last().0, reqs.last().1);
        (s.0, r.1 + s.1)
    }
}

/// Over any run of requests, the history grows by exactly what was
/// published.
proof fn lemma_run_published(st: PortalState, reqs: Seq<(u64, PortalRequest)>)
    ensures
        run(st, reqs).0.history == st.history + published(run(st, reqs).1),
    decreases reqs.len(),
{
    if reqs.len() == 0 {
        assert(st.history + Seq::<Event>::empty() =~= st.history);
    } else {
        lemma_run_published(st, reqs.drop_last());
        let r = run(st, reqs.drop_last());
        let s = request_step(r.0, reqs.last().0, reqs.last().1);
        law_history_is_published(r.0, reqs.last().0, reqs.last().1);
        lemma_published_concat(r.1, s.1);
        assert(st.history + (published(r.1) + published(s.1)) =~= (st.history + published(r.1)) + published(s.1));
    }
}

/// **Law: a subscriber asking for the history gets every event published so
/// far, oldest first.** Starting from a portal with no history, after any
/// run of requests, a request for the history is answered with one task
/// that carries exactly the events that the run published to every
/// subscriber, in the order they were published.
pub proof fn law_history_replays_published(st: PortalState, reqs: Seq<(u64, PortalRequest)>, seqnum: u64, sub_id: u64)
    requires
        st.history == Seq::<Event>::empty(),
    ensures
        ({
            let r = run(st, reqs);
            request_step(r.0, seqnum, PortalRequest::EventHistory(sub_id)).1 == seq![
                TaskView::EventHistory(sub_id, published(r.1)),
            ]
        }),
{
    lemma_run_published(st, reqs);
    assert(Seq::<Event>::empty() + published(run(st, reqs).1) =~= published(run(st, reqs).1));
}

/// `p` is the highest price among the live buy orders of the book.
pub open spec fn is_best_bid(s: super::orderbook::BookState, p: u64) -> bool {
    &&& exists|i: int| live_buy(s, i) && s.buys[i].price == p
    &&& forall|i: int| live_buy(s, i) ==> s.buys[i].price <= p
}

/// `p` is the lowest price among the live sell orders of the book.
pub open spec fn is_best_ask(s: super::orderbook::BookState, p: u64) -> bool {
    &&& exists|j: int| live_sell(s, j) && s.sells[j].price == p
    &&& forall|j: int| live_sell(s, j) ==> s.sells[j].price >= p
}

/// **Law: a market order takes the best opposite price.** When a market
/// order is accepted, it is recorded at the highest live bid of its book
/// (a sell) or the lowest live ask (a buy); when the opposite side has no
/// live order, at the close price of its stock.
pub proof fn law_market_order_price(st: PortalState, seqnum: u64, inv_id: InvId, r: PortalNewOrderRequest)
    requires
        portal_wf(st),
        books_sound(st),
        r.limit_or_market == LimitOrMarket::Market,
        st.last_order_id < u64::MAX,
        st.books.contains_key(r.ticker@),
    ensures
        ({
            let st2 = request_step(st, seqnum, PortalRequest::NewOrder(inv_id, r)).0;
            let s = st.books[r.ticker@];
            let p = st2.orders[st2.last_order_id].limit_price;
            st2.last_order_id != st.last_order_id ==> {
                &&& r.direction == Direction::Sell ==> if exists|i: int| live_buy(s, i) {
                    is_best_bid(s, p)
                } else {
                    p == st.stocks[r.ticker@].close_price
                }
                &&& r.direction == Direction::Buy ==> if exists|j: int| live_sell(s, j) {
                    is_best_ask(s, p)
                } else {
                    p == st.stocks[r.ticker@].close_price
                }
            }
        }),
{
    let t = r.ticker@;
    let s = st.books[t];
    law_best_buy_price(s);
    law_best_sell_price(s);
    let f = market_fill(st, r);
    let st1 = f.0;
    if super::stock_manager::valid_order(st.stocks, r.ticker@, r.price, r.size) {
        let req1 = PortalNewOrderRequest { price: f.1, ..r };
        let p = super::spec::potential_order(req1);
        if st1.accounts.accounts.contains_key(inv_id) && super::account::covers(st1.accounts.accounts[inv_id], p) {
            let order_id = (st1.last_order_id + 1) as OrderId;
            let st2a = PortalState {
                last_order_id: order_id,
                accounts: super::account_manager::AccountsView {
                    accounts: super::account_manager::accounts_after_reservation(st1.accounts.accounts, inv_id, p),
                    ..st1.accounts
                },
                orders: st1.orders.insert(
                    order_id,
                    super::order_info::OrderRecord {
                        inv_id,
                        ticker: req1.ticker,
                        direction: req1.direction,
                        limit_price: req1.price,
                        initial_size: req1.size,
                    },
                ),
                ..st1
            };
            let b = book_step(st2a, req1.ticker@, OrderbookRequest::NewOrder(book_order(order_id, req1)));
            lemma_logs_step_frame(b.0, b.1);
        }
    }
}

/// Every response in `logs` is about order `id` or about a live order of
/// `buys`.
pub open spec fn responses_about(logs: Seq<OrderbookLog>, buys: Seq<BuyOrder>, deleted: Set<OrderId>, id: OrderId) -> bool {
    forall|k: int|
        0 <= k < logs.len() ==> (#[trigger] logs[k] matches OrderbookLog::OrderLog(resp) ==> response_order_id(resp) == id
            || buys_live_id(buys, deleted, response_order_id(resp)))
}

proof fn lemma_responses_concat(a: Seq<OrderbookLog>, b: Seq<OrderbookLog>, buys: Seq<BuyOrder>, deleted: Set<OrderId>, id: OrderId)
    requires
        responses_about(a, buys, deleted, id),
        responses_about(b, buys, deleted, id),
    ensures
        responses_about(a + b, buys, deleted, id),
{
    assert forall|k: int| 0 <= k < (a + b).len() implies (#[trigger] (a + b)[k] matches OrderbookLog::OrderLog(resp)
        ==> response_order_id(resp) == id || buys_live_id(buys, deleted, response_order_id(resp))) by {
        if k < a.len() {
            assert((a + b)[k] == a[k]);
        } else {
            assert((a + b)[k] == b[k - a.len()]);
        }
    }
}

proof fn lemma_responses_fill(x: OrderId, size: Size, price: u64, ticker: crate::types::common::Ticker, buys: Seq<BuyOrder>, deleted: Set<OrderId>, id: OrderId)
    requires
        x == id || buys_live_id(buys, deleted, x),
    ensures
        responses_about(fill_logs(x, size, price, ticker), buys, deleted, id),
{
    let l = fill_logs(x, size, price, ticker);
    assert(l[0] matches OrderbookLog::OrderLog(resp) && response_order_id(resp) == x);
}

/// Matching an incoming sell order reports only on the incoming order and
/// on live buy orders.
proof fn lemma_match_sell_responses(
    buys: Seq<BuyOrder>,
    deleted: Set<OrderId>,
    req: NewOrderRequest,
    left: Size,
    ticker: crate::types::common::Ticker,
)
    requires
        forall|i: int, j: int| #![trigger buys[i], buys[j]] 0 <= i < j < buys.len() ==> buys[i].order_id != buys[j].order_id,
    ensures
        responses_about(match_sell(buys, deleted, req, left, ticker).2, buys, deleted, req.order_id),
    decreases buys.len(),
{
    let m = match_sell(buys, deleted, req, left, ticker);
    if buys.len() > 0 {
        let b = buys[0];
        let rest = buys.drop_first();
        assert forall|i: int, j: int| #![trigger rest[i], rest[j]] 0 <= i < j < rest.len() implies rest[i].order_id != rest[j].order_id by {
            assert(rest[i] == buys[i + 1] && rest[j] == buys[j + 1]);
        }
        if deleted.contains(b.order_id) {
            let d2 = deleted.remove(b.order_id);
            lemma_match_sell_responses(rest, d2, req, left, ticker);
            assert forall|k: int| 0 <= k < m.2.len() implies (#[trigger] m.2[k] matches OrderbookLog::OrderLog(resp)
                ==> response_order_id(resp) == req.order_id || buys_live_id(buys, deleted, response_order_id(resp))) by {
                if let OrderbookLog::OrderLog(resp) = m.2[k] {
                    let x = response_order_id(resp);
                    if x != req.order_id {
                        let j = choose|j: int| 0 <= j < rest.len() && !d2.contains(rest[j].order_id) && (#[trigger] rest[j]).order_id == x;
                        assert(rest[j] == buys[j + 1]);
                        assert(buys[0].order_id != buys[j + 1].order_id);
                    }
                }
            }
        } else if b.price < req.price || left == 0 {
        } else {
            assert(buys_live_id(buys, deleted, b.order_id)) by {
                assert(buys[0].order_id == b.order_id);
            }
            if left < b.size {
                lemma_responses_fill(b.order_id, left, b.price, ticker, buys, deleted, req.order_id);
                lemma_responses_fill(req.order_id, left, b.price, ticker, buys, deleted, req.order_id);
                lemma_responses_concat(fill_logs(b.order_id, left, b.price, ticker), fill_logs(req.order_id, left, b.price, ticker), buys, deleted, req.order_id);
            } else {
                let left2 = (left - b.size) as Size;
                lemma_match_sell_responses(rest, deleted, req, left2, ticker);
                let mr = match_sell(rest, deleted, req, left2, ticker);
                assert(responses_about(mr.2, buys, deleted, req.order_id)) by {
                    assert forall|k: int| 0 <= k < mr.2.len() implies (#[trigger] mr.2[k] matches OrderbookLog::OrderLog(resp)
                        ==> response_order_id(resp) == req.order_id || buys_live_id(buys, deleted, response_order_id(resp))) by {
                        if let OrderbookLog::OrderLog(resp) = mr.2[k] {
                            let x = response_order_id(resp);
                            if x != req.order_id {
                                let j = choose|j: int| 0 <= j < rest.len() && !deleted.contains(rest[j].order_id) && (#[trigger] rest[j]).order_id == x;
                                assert(rest[j] == buys[j + 1]);
                            }
                        }
                    }
                }
                let a1 = fill_logs(b.order_id, b.size, b.price, ticker);
                let a2 = seq![dead_log(b.order_id)];
                let a3 = fill_logs(req.order_id, b.size, b.price, ticker);
                lemma_responses_fill(b.order_id, b.size, b.price, ticker, buys, deleted, req.order_id);
                lemma_responses_fill(req.order_id, b.size, b.price, ticker, buys, deleted, req.order_id);
                assert(responses_about(a2, buys, deleted, req.order_id)) by {
                    assert(a2[0] matches OrderbookLog::OrderLog(resp) && response_order_id(resp) == b.order_id);
                }
                lemma_responses_concat(a1, a2, buys, deleted, req.order_id);
                lemma_responses_concat(a1 + a2, a3, buys, deleted, req.order_id);
                lemma_responses_concat(a1 + a2 + a3, mr.2, buys, deleted, req.order_id);
            }
        }
    }
}

/// An update that leaves the shares of investor `inv` alone.
pub open spec fn keeps_shares_of(u: AccountUpdate, inv: InvId) -> bool {
    update_inv_id(u) != inv || u is UpdCash
}

proof fn lemma_apply_updates_shares(accounts: Map<InvId, AccountView>, ups: Seq<AccountUpdate>, inv: InvId)
    requires
        forall|k: int| 0 <= k < ups.len() ==> keeps_shares_of(#[trigger] ups[k], inv),
    ensures
        apply_updates(accounts, ups).contains_key(inv) == accounts.contains_key(inv),
        accounts.contains_key(inv) ==> apply_updates(accounts, ups)[inv].positions == accounts[inv].positions,
    decreases ups.len(),
{
    if ups.len() > 0 {
        let init = ups.drop_last();
        assert forall|k: int| 0 <= k < init.len() implies keeps_shares_of(#[trigger] init[k], inv) by {
            assert(init[k] == ups[k]);
        }
        lemma_apply_updates_shares(accounts, init, inv);
        assert(keeps_shares_of(ups[ups.len() - 1], inv));
    }
}

/// Resting sizes never gain an order that no log adds.
proof fn lemma_resting_no_new(r: Map<OrderId, Size>, logs: Seq<OrderbookLog>, nid: OrderId)
    requires
        !r.contains_key(nid),
        forall|k: int| 0 <= k < logs.len() ==> !(#[trigger] logs[k] matches OrderbookLog::EventLog(Event::OrderAdded(a)) && a.order_id == nid),
    ensures
        !resting_after_logs(r, logs).contains_key(nid),
    decreases logs.len(),
{
    if logs.len() > 0 {
        let init = logs.drop_last();
        assert forall|k: int| 0 <= k < init.len() implies !(#[trigger] init[k] matches OrderbookLog::EventLog(Event::OrderAdded(a)) && a.order_id == nid) by {
            assert(init[k] == logs[k]);
        }
        lemma_resting_no_new(r, init, nid);
        assert(!(logs[logs.len() - 1] matches OrderbookLog::EventLog(Event::OrderAdded(a)) && a.order_id == nid));
    }
}

/// Processing the logs of a new sell order of `inv` (order `nid`, which does
/// not rest until its last log at the earliest), in which every other
/// response is about an order of someone else, leaves `inv`'s shares alone.
proof fn lemma_logs_keep_shares(st: PortalState, logs: Seq<OrderbookLog>, inv: InvId, nid: OrderId)
    requires
        !st.resting.contains_key(nid),
        st.orders.contains_key(nid),
        st.orders[nid].inv_id == inv,
        st.orders[nid].direction == Direction::Sell,
        forall|k: int| 0 <= k < logs.len() ==> (#[trigger] logs[k] matches OrderbookLog::OrderLog(resp) ==> response_order_id(resp) == nid
            || st.orders[response_order_id(resp)].inv_id != inv),
        forall|k: int| 0 <= k < logs.len() - 1 ==> !(#[trigger] logs[k] matches OrderbookLog::EventLog(Event::OrderAdded(a)) && a.order_id == nid),
    ensures
        logs_step(st, logs).0.accounts.accounts.contains_key(inv) == st.accounts.accounts.contains_key(inv),
        st.accounts.accounts.contains_key(inv) ==> logs_step(st, logs).0.accounts.accounts[inv].positions == st.accounts.accounts[inv].positions,
    decreases logs.len(),
{
    if logs.len() > 0 {
        let init = logs.drop_last();
        assert forall|k: int| 0 <= k < init.len() implies (#[trigger] init[k] matches OrderbookLog::OrderLog(resp) ==> response_order_id(resp) == nid
            || st.orders[response_order_id(resp)].inv_id != inv) by {
            assert(init[k] == logs[k]);
        }
        assert forall|k: int| 0 <= k < init.len() implies !(#[trigger] init[k] matches OrderbookLog::EventLog(Event::OrderAdded(a)) && a.order_id == nid) by {
            assert(init[k] == logs[k]);
        }
        lemma_logs_keep_shares(st, init, inv, nid);
        lemma_logs_step_frame(st, init);
        lemma_logs_step_resting(st, init);
        lemma_resting_no_new(st.resting, init, nid);
        let r = logs_step(st, init).0;
        let log = logs.last();
        assert(log == logs[logs.len() - 1]);
        if let OrderbookLog::OrderLog(resp) = log {
            let id = response_order_id(resp);
            let rec = r.orders[id];
            let o = resting_outcome(r.resting, id);
            let ups = settlement(resp, rec, o.0);
            assert forall|k: int| 0 <= k < ups.len() implies keeps_shares_of(#[trigger] ups[k], inv) by {
                if id != nid {
                    assert(update_inv_id(ups[k]) == rec.inv_id);
                }
            }
            lemma_apply_updates_shares(r.accounts.accounts, ups, inv);
        }
    }
}

/// No log of `logs` adds an order to a book.
pub open spec fn adds_none(logs: Seq<OrderbookLog>) -> bool {
    forall|k: int| 0 <= k < logs.len() ==> !(#[trigger] logs[k] matches OrderbookLog::EventLog(Event::OrderAdded(_)))
}

proof fn lemma_adds_none_concat(a: Seq<OrderbookLog>, b: Seq<OrderbookLog>)
    requires
        adds_none(a),
        adds_none(b),
    ensures
        adds_none(a + b),
{
    assert forall|k: int| 0 <= k < (a + b).len() implies !(#[trigger] (a + b)[k] matches OrderbookLog::EventLog(Event::OrderAdded(_))) by {
        if k < a.len() {
            assert((a + b)[k] == a[k]);
        } else {
            assert((a + b)[k] == b[k - a.len()]);
        }
    }
}

proof fn lemma_fill_adds_none(x: OrderId, size: Size, price: u64, ticker: crate::types::common::Ticker)
    ensures
        adds_none(fill_logs(x, size, price, ticker)),
{
    let l = fill_logs(x, size, price, ticker);
    assert(!(l[0] matches OrderbookLog::EventLog(Event::OrderAdded(_))));
    assert(!(l[1] matches OrderbookLog::EventLog(Event::OrderAdded(_))));
}

/// Matching adds no order to the book: only its last log, if any, does.
proof fn lemma_match_sell_adds_none(
    buys: Seq<BuyOrder>,
    deleted: Set<OrderId>,
    req: NewOrderRequest,
    left: Size,
    ticker: crate::types::common::Ticker,
)
    ensures
        adds_none(match_sell(buys, deleted, req, left, ticker).2),
    decreases buys.len(),
{
    if buys.len() > 0 {
        let b = buys[0];
        let rest = buys.drop_first();
        if deleted.contains(b.order_id) {
            lemma_match_sell_adds_none(rest, deleted.remove(b.order_id), req, left, ticker);
        } else if b.price < req.price || left == 0 {
        } else if left < b.size {
            lemma_fill_adds_none(b.order_id, left, b.price, ticker);
            lemma_fill_adds_none(req.order_id, left, b.price, ticker);
            lemma_adds_none_concat(fill_logs(b.order_id, left, b.price, ticker), fill_logs(req.order_id, left, b.price, ticker));
        } else {
            let left2 = (left - b.size) as Size;
            lemma_match_sell_adds_none(rest, deleted, req, left2, ticker);
            let a1 = fill_logs(b.order_id, b.size, b.price, ticker);
            let a2 = seq![dead_log(b.order_id)];
            let a3 = fill_logs(req.order_id, b.size, b.price, ticker);
            lemma_fill_adds_none(b.order_id, b.size, b.price, ticker);
            lemma_fill_adds_none(req.order_id, b.size, b.price, ticker);
            assert(adds_none(a2)) by {
                assert(!(a2[0] matches OrderbookLog::EventLog(Event::OrderAdded(_))));
            }
            lemma_adds_none_concat(a1, a2);
            lemma_adds_none_concat(a1 + a2, a3);
            lemma_adds_none_concat(a1 + a2 + a3, match_sell(rest, deleted, req, left2, ticker).2);
        }
    }
}

/// The shares that `tasks` report filled for order `id`.
pub open spec fn reported_filled(tasks: Seq<TaskView>, id: OrderId) -> nat
    decreases tasks.len(),
{
    if tasks.len() == 0 {
        0
    } else {
        reported_filled(tasks.drop_last(), id) + match tasks.last() {
            TaskView::OrderResponse(_, OrderResponse::OrderFill(f)) => if f.order_id == id {
                f.fill_size as nat
            } else {
                0
            },
            _ => 0,
        }
    }
}

proof fn lemma_reported_concat(a: Seq<TaskView>, b: Seq<TaskView>, id: OrderId)
    ensures
        reported_filled(a + b, id) == reported_filled(a, id) + reported_filled(b, id),
    decreases b.len(),
{
    if b.len() == 0 {
        assert(a + b =~= a);
    } else {
        lemma_reported_concat(a, b.drop_last(), id);
        assert((a + b).drop_last() =~= a + b.drop_last());
        assert((a + b).last() == b.last());
    }
}

/// The fills the owners are told of are the fills the book reported.
proof fn lemma_logs_reported(st: PortalState, logs: Seq<OrderbookLog>, id: OrderId)
    ensures
        reported_filled(logs_step(st, logs).1, id) == filled(logs, id),
    decreases logs.len(),
{
    if logs.len() > 0 {
        lemma_logs_reported(st, logs.drop_last(), id);
        let r = logs_step(st, logs.drop_last());
        assert(r.1.push(log_step(r.0, logs.last()).1).drop_last() =~= r.1);
    }
}

/// **Law: a seller gives up exactly the shares that were sold.** When a new
/// sell order is accepted from an investor who has no live bid in the book
/// (so does not trade with herself), her position in the stock afterwards
/// is her position before, less the shares that the answer reports filled
/// for the order, when the order dies without resting (what was not sold
/// comes back); and less the order's whole size, when the rest of it rests
/// in the book (still offered). The fills never exceed the order's size.
pub proof fn law_seller_gives_up_what_was_sold(st: PortalState, seqnum: u64, inv_id: InvId, r: PortalNewOrderRequest)
    requires
        portal_wf(st),
        books_sound(st),
        resting_tracks_books(st),
        st.last_order_id < u64::MAX,
        r.direction == Direction::Sell,
        st.books.contains_key(r.ticker@),
        forall|i: int| live_buy(st.books[r.ticker@], i) ==> st.orders[(#[trigger] st.books[r.ticker@].buys[i]).order_id].inv_id != inv_id,
    ensures
        ({
            let (st2, tasks) = request_step(st, seqnum, PortalRequest::NewOrder(inv_id, r));
            let id = st2.last_order_id;
            let t = r.ticker@;
            st2.last_order_id != st.last_order_id ==> {
                &&& st.accounts.accounts.contains_key(inv_id)
                &&& st.accounts.accounts[inv_id].positions.contains_key(t)
                &&& st2.accounts.accounts.contains_key(inv_id)
                &&& st2.accounts.accounts[inv_id].positions.contains_key(t)
                &&& reported_filled(tasks, id) <= r.size
                &&& tasks.len() > 0
                &&& tasks.last() == TaskView::OrderResponse(
                    inv_id,
                    OrderResponse::OrderDead(crate::types::orderbook::OrderDeadResponse { order_id: id }),
                ) ==> st2.accounts.accounts[inv_id].positions[t] + reported_filled(tasks, id)
                    == st.accounts.accounts[inv_id].positions[t]
                &&& tasks.last() != TaskView::OrderResponse(
                    inv_id,
                    OrderResponse::OrderDead(crate::types::orderbook::OrderDeadResponse { order_id: id }),
                ) ==> st2.accounts.accounts[inv_id].positions[t] + r.size == st.accounts.accounts[inv_id].positions[t]
            }
        }),
{
    let t = r.ticker@;
    let s = st.books[t];
    let f = market_fill(st, r);
    let st1 = f.0;
    lemma_fill_in_frame(st, r);
    lemma_tracking_facts(st);
    law_best_buy_price(s);
    super::laws::lemma_best_outcomes_sound(s, super::laws::ids_up_to(st.last_order_id));
    let s1 = st1.books[t];
    assert(st1.books.contains_key(t));
    assert(super::orderbook::book_wf(s1) && super::orderbook_laws::book_ids_distinct(s1)
        && super::orderbook_laws::book_ids_within(s1, super::laws::ids_up_to(st.last_order_id)));
    assert(super::orderbook_laws::live_buy_orders(s1) == super::orderbook_laws::live_buy_orders(s));
    if super::stock_manager::valid_order(st.stocks, r.ticker@, r.price, r.size) {
        let req1 = PortalNewOrderRequest { price: f.1, ..r };
        let p = super::spec::potential_order(req1);
        if st1.accounts.accounts.contains_key(inv_id) && super::account::covers(st1.accounts.accounts[inv_id], p) {
            let nid = (st1.last_order_id + 1) as OrderId;
            let rec = super::order_info::OrderRecord {
                inv_id,
                ticker: req1.ticker,
                direction: req1.direction,
                limit_price: req1.price,
                initial_size: req1.size,
            };
            let st2a = PortalState {
                last_order_id: nid,
                accounts: super::account_manager::AccountsView {
                    accounts: super::account_manager::accounts_after_reservation(st1.accounts.accounts, inv_id, p),
                    ..st1.accounts
                },
                orders: st1.orders.insert(nid, rec),
                ..st1
            };
            let pos0 = st.accounts.accounts[inv_id].positions[t];
            assert(st2a.accounts.accounts[inv_id].positions == st.accounts.accounts[inv_id].positions.insert(t, (pos0 - r.size) as Size));
            let bo = book_order(nid, req1);
            let breq = OrderbookRequest::NewOrder(bo);
            let b = book_step(st2a, t, breq);
            let m = match_sell(s1.buys, s1.deleted, bo, bo.size, s1.ticker);
            assert(b.1 == new_sell_outcome(s1, bo).1);
            // What the book reports is about the new order or about live bids of others.
            lemma_match_sell_responses(s1.buys, s1.deleted, bo, bo.size, s1.ticker);
            lemma_match_sell_adds_none(s1.buys, s1.deleted, bo, bo.size, s1.ticker);
            assert(b.1.drop_last() =~= m.2);
            assert forall|k: int| 0 <= k < b.1.len() implies (#[trigger] b.1[k] matches OrderbookLog::OrderLog(resp) ==> response_order_id(resp) == nid
                || b.0.orders[response_order_id(resp)].inv_id != inv_id) by {
                if let OrderbookLog::OrderLog(resp) = b.1[k] {
                    let x = response_order_id(resp);
                    if x != nid {
                        assert(k < m.2.len());
                        assert(b.1[k] == m.2[k]);
                        let j = choose|j: int| 0 <= j < s1.buys.len() && !s1.deleted.contains(s1.buys[j].order_id) && (#[trigger] s1.buys[j]).order_id == x;
                        assert(live_buy(s1, j));
                        assert(super::orderbook_laws::live_buy_orders(s1).contains(s1.buys[j]));
                        let i0 = choose|i0: int| live_buy(s, i0) && s.buys[i0] == s1.buys[j];
                        assert(st.orders[s.buys[i0].order_id].inv_id != inv_id);
                    }
                }
            }
            assert forall|k: int| 0 <= k < b.1.len() - 1 implies !(#[trigger] b.1[k] matches OrderbookLog::EventLog(Event::OrderAdded(a)) && a.order_id == nid) by {
                assert(b.1[k] == m.2[k]);
            }
            assert(!b.0.resting.contains_key(nid));
            lemma_logs_keep_shares(b.0, b.1, inv_id, nid);
            lemma_logs_step_frame(b.0, b.1);
            let l = logs_step(b.0, b.1);
            // The fills reported, and how the order ends.
            super::orderbook_laws::law_new_order_fills(s1, bo);
            assert(super::orderbook_laws::id_fresh(s1, nid)) by {
                assert forall|i: int| 0 <= i < s1.buys.len() implies #[trigger] s1.buys[i].order_id != nid by {
                    assert(super::laws::ids_up_to(st.last_order_id).contains(s1.buys[i].order_id));
                }
                assert forall|j: int| 0 <= j < s1.sells.len() implies #[trigger] s1.sells[j].order_id != nid by {
                    assert(super::laws::ids_up_to(st.last_order_id).contains(s1.sells[j].order_id));
                }
            }
            super::orderbook_laws::law_new_order_fills(s1, bo);
            let fl = filled(b.1, nid);
            let (st2, tasks) = request_step(st, seqnum, PortalRequest::NewOrder(inv_id, r));
            let ack = seq![TaskView::OrderAck(inv_id, seqnum, nid)];
            assert(tasks == ack + l.1);
            lemma_logs_reported(b.0, b.1, nid);
            lemma_reported_concat(ack, l.1, nid);
            assert(reported_filled(ack, nid) == 0) by {
                reveal_with_fuel(reported_filled, 2);
                assert(ack.drop_last() =~= Seq::<TaskView>::empty());
            }
            assert(reported_filled(tasks, nid) == fl);
            // The last answer is the order's death exactly when it dies.
            let pre = logs_step(b.0, b.1.drop_last());
            assert(l.1 == pre.1.push(log_step(pre.0, b.1.last()).1));
            assert(tasks.last() == l.1.last());
            lemma_logs_step_frame(b.0, b.1.drop_last());
            let dead_task = TaskView::OrderResponse(
                inv_id,
                OrderResponse::OrderDead(crate::types::orderbook::OrderDeadResponse { order_id: nid }),
            );
            assert(super::spec::died(b.1, nid) <==> tasks.last() == dead_task);
            // Giving back the unfilled shares.
            super::laws::law_open_plus_filled(b.1, nid, bo.size);
            let open = super::spec::open_after(b.1, nid, bo.size);
            assert(st2 == refund_step(l.0, b.1, nid, bo.size));
            assert(l.0.orders[nid] == rec);
        }
    }
}

/// Every response in `logs` is about order `id` or about a live order of
/// `sells`.
pub open spec fn responses_about_sells(logs: Seq<OrderbookLog>, sells: Seq<SellOrder>, deleted: Set<OrderId>, id: OrderId) -> bool {
    forall|k: int|
        0 <= k < logs.len() ==> (#[trigger] logs[k] matches OrderbookLog::OrderLog(resp) ==> response_order_id(resp) == id
            || sells_live_id(sells, deleted, response_order_id(resp)))
}

proof fn lemma_responses_concat_sells(a: Seq<OrderbookLog>, b: Seq<OrderbookLog>, sells: Seq<SellOrder>, deleted: Set<OrderId>, id: OrderId)
    requires
        responses_about_sells(a, sells, deleted, id),
        responses_about_sells(b, sells, deleted, id),
    ensures
        responses_about_sells(a + b, sells, deleted, id),
{
    assert forall|k: int| 0 <= k < (a + b).len() implies (#[trigger] (a + b)[k] matches OrderbookLog::OrderLog(resp)
        ==> response_order_id(resp) == id || sells_live_id(sells, deleted, response_order_id(resp))) by {
        if k < a.len() {
            assert((a + b)[k] == a[k]);
        } else {
            assert((a + b)[k] == b[k - a.len()]);
        }
    }
}

proof fn lemma_responses_fill_sells(x: OrderId, size: Size, price: u64, ticker: crate::types::common::Ticker, sells: Seq<SellOrder>, deleted: Set<OrderId>, id: OrderId)
    requires
        x == id || sells_live_id(sells, deleted, x),
    ensures
        responses_about_sells(fill_logs(x, size, price, ticker), sells, deleted, id),
{
    let l = fill_logs(x, size, price, ticker);
    assert(l[0] matches OrderbookLog::OrderLog(resp) && response_order_id(resp) == x);
}

/// Matching an incoming buy order reports only on the incoming order and
/// on live sell orders.
proof fn lemma_match_buy_responses(
    sells: Seq<SellOrder>,
    deleted: Set<OrderId>,
    req: NewOrderRequest,
    left: Size,
    ticker: crate::types::common::Ticker,
)
    requires
        forall|i: int, j: int| #![trigger sells[i], sells[j]] 0 <= i < j < sells.len() ==> sells[i].order_id != sells[j].order_id,
    ensures
        responses_about_sells(match_buy(sells, deleted, req, left, ticker).2, sells, deleted, req.order_id),
    decreases sells.len(),
{
    let m = match_buy(sells, deleted, req, left, ticker);
    if sells.len() > 0 {
        let b = sells[0];
        let rest = sells.drop_first();
        assert forall|i: int, j: int| #![trigger rest[i], rest[j]] 0 <= i < j < rest.len() implies rest[i].order_id != rest[j].order_id by {
            assert(rest[i] == sells[i + 1] && rest[j] == sells[j + 1]);
        }
        if deleted.contains(b.order_id) {
            let d2 = deleted.remove(b.order_id);
            lemma_match_buy_responses(rest, d2, req, left, ticker);
            assert forall|k: int| 0 <= k < m.2.len() implies (#[trigger] m.2[k] matches OrderbookLog::OrderLog(resp)
                ==> response_order_id(resp) == req.order_id || sells_live_id(sells, deleted, response_order_id(resp))) by {
                if let OrderbookLog::OrderLog(resp) = m.2[k] {
                    let x = response_order_id(resp);
                    if x != req.order_id {
                        let j = choose|j: int| 0 <= j < rest.len() && !d2.contains(rest[j].order_id) && (#[trigger] rest[j]).order_id == x;
                        assert(rest[j] == sells[j + 1]);
                        assert(sells[0].order_id != sells[j + 1].order_id);
                    }
                }
            }
        } else if b.price > req.price || left == 0 {
        } else {
            assert(sells_live_id(sells, deleted, b.order_id)) by {
                assert(sells[0].order_id == b.order_id);
            }
            if left < b.size {
                lemma_responses_fill_sells(b.order_id, left, b.price, ticker, sells, deleted, req.order_id);
                lemma_responses_fill_sells(req.order_id, left, b.price, ticker, sells, deleted, req.order_id);
                lemma_responses_concat_sells(fill_logs(b.order_id, left, b.price, ticker), fill_logs(req.order_id, left, b.price, ticker), sells, deleted, req.order_id);
            } else {
                let left2 = (left - b.size) as Size;
                lemma_match_buy_responses(rest, deleted, req, left2, ticker);
                let mr = match_buy(rest, deleted, req, left2, ticker);
                assert(responses_about_sells(mr.2, sells, deleted, req.order_id)) by {
                    assert forall|k: int| 0 <= k < mr.2.len() implies (#[trigger] mr.2[k] matches OrderbookLog::OrderLog(resp)
                        ==> response_order_id(resp) == req.order_id || sells_live_id(sells, deleted, response_order_id(resp))) by {
                        if let OrderbookLog::OrderLog(resp) = mr.2[k] {
                            let x = response_order_id(resp);
                            if x != req.order_id {
                                let j = choose|j: int| 0 <= j < rest.len() && !deleted.contains(rest[j].order_id) && (#[trigger] rest[j]).order_id == x;
                                assert(rest[j] == sells[j + 1]);
                            }
                        }
                    }
                }
                let a1 = fill_logs(b.order_id, b.size, b.price, ticker);
                let a2 = seq![dead_log(b.order_id)];
                let a3 = fill_logs(req.order_id, b.size, b.price, ticker);
                lemma_responses_fill_sells(b.order_id, b.size, b.price, ticker, sells, deleted, req.order_id);
                lemma_responses_fill_sells(req.order_id, b.size, b.price, ticker, sells, deleted, req.order_id);
                assert(responses_about_sells(a2, sells, deleted, req.order_id)) by {
                    assert(a2[0] matches OrderbookLog::OrderLog(resp) && response_order_id(resp) == b.order_id);
                }
                lemma_responses_concat_sells(a1, a2, sells, deleted, req.order_id);
                lemma_responses_concat_sells(a1 + a2, a3, sells, deleted, req.order_id);
                lemma_responses_concat_sells(a1 + a2 + a3, mr.2, sells, deleted, req.order_id);
            }
        }
    }
}

/// Matching adds no order to the book: only its last log, if any, does.
proof fn lemma_match_buy_adds_none(
    sells: Seq<SellOrder>,
    deleted: Set<OrderId>,
    req: NewOrderRequest,
    left: Size,
    ticker: crate::types::common::Ticker,
)
    ensures
        adds_none(match_buy(sells, deleted, req, left, ticker).2),
    decreases sells.len(),
{
    if sells.len() > 0 {
        let b = sells[0];
        let rest = sells.drop_first();
        if deleted.contains(b.order_id) {
            lemma_match_buy_adds_none(rest, deleted.remove(b.order_id), req, left, ticker);
        } else if b.price > req.price || left == 0 {
        } else if left < b.size {
            lemma_fill_adds_none(b.order_id, left, b.price, ticker);
            lemma_fill_adds_none(req.order_id, left, b.price, ticker);
            lemma_adds_none_concat(fill_logs(b.order_id, left, b.price, ticker), fill_logs(req.order_id, left, b.price, ticker));
        } else {
            let left2 = (left - b.size) as Size;
            lemma_match_buy_adds_none(rest, deleted, req, left2, ticker);
            let a1 = fill_logs(b.order_id, b.size, b.price, ticker);
            let a2 = seq![dead_log(b.order_id)];
            let a3 = fill_logs(req.order_id, b.size, b.price, ticker);
            lemma_fill_adds_none(b.order_id, b.size, b.price, ticker);
            lemma_fill_adds_none(req.order_id, b.size, b.price, ticker);
            assert(adds_none(a2)) by {
                assert(!(a2[0] matches OrderbookLog::EventLog(Event::OrderAdded(_))));
            }
            lemma_adds_none_concat(a1, a2);
            lemma_adds_none_concat(a1 + a2, a3);
            lemma_adds_none_concat(a1 + a2 + a3, match_buy(rest, deleted, req, left2, ticker).2);
        }
    }
}


/// The cash that the fills of order `id` in `logs` come to.
pub open spec fn fill_cost(logs: Seq<OrderbookLog>, id: OrderId) -> int
    decreases logs.len(),
{
    if logs.len() == 0 {
        0
    } else {
        fill_cost(logs.drop_last(), id) + match logs.last() {
            OrderbookLog::OrderLog(OrderResponse::OrderFill(f)) => if f.order_id == id {
                f.fill_size * f.fill_price
            } else {
                0
            },
            _ => 0,
        }
    }
}

/// The cash that the fills `tasks` report for order `id` come to.
pub open spec fn reported_cost(tasks: Seq<TaskView>, id: OrderId) -> int
    decreases tasks.len(),
{
    if tasks.len() == 0 {
        0
    } else {
        reported_cost(tasks.drop_last(), id) + match tasks.last() {
            TaskView::OrderResponse(_, OrderResponse::OrderFill(f)) => if f.order_id == id {
                f.fill_size * f.fill_price
            } else {
                0
            },
            _ => 0,
        }
    }
}

proof fn lemma_cost_concat(a: Seq<TaskView>, b: Seq<TaskView>, id: OrderId)
    ensures
        reported_cost(a + b, id) == reported_cost(a, id) + reported_cost(b, id),
    decreases b.len(),
{
    if b.len() == 0 {
        assert(a + b =~= a);
    } else {
        lemma_cost_concat(a, b.drop_last(), id);
        assert((a + b).drop_last() =~= a + b.drop_last());
        assert((a + b).last() == b.last());
    }
}

proof fn lemma_logs_cost(st: PortalState, logs: Seq<OrderbookLog>, id: OrderId)
    ensures
        reported_cost(logs_step(st, logs).1, id) == fill_cost(logs, id),
    decreases logs.len(),
{
    if logs.len() > 0 {
        lemma_logs_cost(st, logs.drop_last(), id);
        let r = logs_step(st, logs.drop_last());
        assert(r.1.push(log_step(r.0, logs.last()).1).drop_last() =~= r.1);
    }
}

proof fn lemma_apply_updates_others(accounts: Map<InvId, AccountView>, ups: Seq<AccountUpdate>, inv: InvId)
    requires
        forall|k: int| 0 <= k < ups.len() ==> update_inv_id(#[trigger] ups[k]) != inv,
    ensures
        apply_updates(accounts, ups).contains_key(inv) == accounts.contains_key(inv),
        accounts.contains_key(inv) ==> apply_updates(accounts, ups)[inv] == accounts[inv],
    decreases ups.len(),
{
    if ups.len() > 0 {
        let init = ups.drop_last();
        assert forall|k: int| 0 <= k < init.len() implies update_inv_id(#[trigger] init[k]) != inv by {
            assert(init[k] == ups[k]);
        }
        lemma_apply_updates_others(accounts, init, inv);
        assert(update_inv_id(ups[ups.len() - 1]) != inv);
    }
}

/// Processing the logs of a new buy order of `inv` (order `nid` at limit
/// `lim`, which does not rest until its last log at the earliest), in which
/// every other response is about an order of someone else and no fill is
/// above `lim`: each fill of the order gives back the difference between its
/// limit and the fill price, and nothing else changes `inv`'s cash.
proof fn lemma_logs_cash(st: PortalState, logs: Seq<OrderbookLog>, inv: InvId, nid: OrderId, lim: u64)
    requires
        !st.resting.contains_key(nid),
        st.orders.contains_key(nid),
        st.orders[nid].inv_id == inv,
        st.orders[nid].direction == Direction::Buy,
        st.orders[nid].limit_price == lim,
        forall|k: int| 0 <= k < logs.len() ==> (#[trigger] logs[k] matches OrderbookLog::OrderLog(resp) ==> response_order_id(resp) == nid
            || st.orders[response_order_id(resp)].inv_id != inv),
        forall|k: int| 0 <= k < logs.len() - 1 ==> !(#[trigger] logs[k] matches OrderbookLog::EventLog(Event::OrderAdded(a)) && a.order_id == nid),
        fills_at_most(logs, lim),
        st.accounts.accounts.contains_key(inv),
        st.accounts.accounts[inv].cash >= 0,
        st.accounts.accounts[inv].cash + lim * filled(logs, nid) <= i128::MAX,
    ensures
        logs_step(st, logs).0.accounts.accounts.contains_key(inv),
        logs_step(st, logs).0.accounts.accounts[inv].cash == st.accounts.accounts[inv].cash + lim * filled(logs, nid)
            - fill_cost(logs, nid),
        0 <= fill_cost(logs, nid) <= lim * filled(logs, nid),
    decreases logs.len(),
{
    let c0 = st.accounts.accounts[inv].cash;
    if logs.len() == 0 {
        assert(lim * filled(logs, nid) == 0) by (nonlinear_arith)
            requires
                filled(logs, nid) == 0,
        ;
    } else {
        let init = logs.drop_last();
        let last = logs.last();
        assert(last == logs[logs.len() - 1]);
        assert forall|k: int| 0 <= k < init.len() implies (#[trigger] init[k] matches OrderbookLog::OrderLog(resp) ==> response_order_id(resp) == nid
            || st.orders[response_order_id(resp)].inv_id != inv) by {
            assert(init[k] == logs[k]);
        }
        assert forall|k: int| 0 <= k < init.len() implies !(#[trigger] init[k] matches OrderbookLog::EventLog(Event::OrderAdded(a)) && a.order_id == nid) by {
            assert(init[k] == logs[k]);
        }
        assert forall|k: int| 0 <= k < init.len() implies (#[trigger] init[k] matches OrderbookLog::OrderLog(
            OrderResponse::OrderFill(f),
        ) ==> f.fill_price <= lim) by {
            assert(init[k] == logs[k]);
        }
        let fi = filled(init, nid);
        let fa = filled(logs, nid);
        assert(fi <= fa);
        assert(lim * fi <= lim * fa) by (nonlinear_arith)
            requires
                fi <= fa,
                0 <= lim,
        ;
        lemma_logs_cash(st, init, inv, nid, lim);
        lemma_logs_step_frame(st, init);
        lemma_logs_step_resting(st, init);
        lemma_resting_no_new(st.resting, init, nid);
        let r = logs_step(st, init).0;
        let ci = r.accounts.accounts[inv].cash;
        let ki = fill_cost(init, nid);
        if let OrderbookLog::OrderLog(resp) = last {
            let id = response_order_id(resp);
            let rec = r.orders[id];
            let o = resting_outcome(r.resting, id);
            let ups = settlement(resp, rec, o.0);
            if id != nid {
                assert forall|k: int| 0 <= k < ups.len() implies update_inv_id(#[trigger] ups[k]) != inv by {
                    assert(update_inv_id(ups[k]) == rec.inv_id);
                }
                lemma_apply_updates_others(r.accounts.accounts, ups, inv);
            } else {
                match resp {
                    OrderResponse::OrderFill(f) => {
                        let fs: int = f.fill_size as int;
                        let fp: int = f.fill_price as int;
                        assert(fp <= lim);
                        let v: int = fs * (lim - fp);
                        assert(0 <= v <= 0xffff_ffff_ffff_ffff_ffff_ffff && v == fs * lim - fs * fp && 0 <= fs * fp <= fs * lim)
                            by (nonlinear_arith)
                            requires
                                0 <= fs <= 0xffff_ffff,
                                0 <= fp <= lim,
                                lim <= 0xffff_ffff_ffff_ffff,
                                v == fs * (lim - fp),
                        ;
                        assert(fa == fi + fs);
                        assert(lim * fa == lim * fi + lim * fs) by (nonlinear_arith)
                            requires
                                fa == fi + fs,
                        ;
                        assert(fs * lim == lim * fs) by (nonlinear_arith);
                        let a1 = super::account_manager::accounts_after(r.accounts.accounts, ups[0]);
                        assert(ups == seq![ups[0], ups[1]]);
                        assert(ups.drop_last() =~= seq![ups[0]]);
                        assert(seq![ups[0]].drop_last() =~= Seq::<AccountUpdate>::empty());
                        reveal_with_fuel(apply_updates, 3);
                        assert(apply_updates(r.accounts.accounts, ups) == super::account_manager::accounts_after(a1, ups[1]));
                        assert(ups[0] == AccountUpdate::UpdCash(inv, v as i128));
                        assert(ci + v <= i128::MAX);
                        assert(a1[inv].cash == ci + v);
                        assert(fill_cost(logs, nid) == ki + fs * fp);
                    },
                    OrderResponse::OrderDead(_) => {
                        assert(ups =~= Seq::<AccountUpdate>::empty());
                    },
                }
            }
        }
    }
}

/// **Law: a buyer pays exactly for what was bought.** When a new buy order
/// is accepted from an investor who has no live offer in the book (so does
/// not trade with herself), her cash afterwards is her cash before, less
/// what the fills that the answer reports for the order come to, when the
/// order dies without resting (the cash reserved for what was not bought
/// comes back); and less that and the cash still reserved, at the order's
/// price, for the shares that rest in the book. The fills never exceed the
/// order's size.
pub proof fn law_buyer_pays_for_what_was_bought(st: PortalState, seqnum: u64, inv_id: InvId, r: PortalNewOrderRequest)
    requires
        portal_wf(st),
        books_sound(st),
        resting_tracks_books(st),
        st.last_order_id < u64::MAX,
        r.direction == Direction::Buy,
        st.books.contains_key(r.ticker@),
        forall|j: int| live_sell(st.books[r.ticker@], j) ==> st.orders[(#[trigger] st.books[r.ticker@].sells[j]).order_id].inv_id != inv_id,
    ensures
        ({
            let (st2, tasks) = request_step(st, seqnum, PortalRequest::NewOrder(inv_id, r));
            let id = st2.last_order_id;
            let lim = st2.orders[id].limit_price;
            st2.last_order_id != st.last_order_id ==> {
                &&& st.accounts.accounts.contains_key(inv_id)
                &&& st2.accounts.accounts.contains_key(inv_id)
                &&& reported_filled(tasks, id) <= r.size
                &&& tasks.len() > 0
                &&& tasks.last() == TaskView::OrderResponse(
                    inv_id,
                    OrderResponse::OrderDead(crate::types::orderbook::OrderDeadResponse { order_id: id }),
                ) ==> st2.accounts.accounts[inv_id].cash + reported_cost(tasks, id) == st.accounts.accounts[inv_id].cash
                &&& tasks.last() != TaskView::OrderResponse(
                    inv_id,
                    OrderResponse::OrderDead(crate::types::orderbook::OrderDeadResponse { order_id: id }),
                ) ==> st2.accounts.accounts[inv_id].cash + reported_cost(tasks, id) + lim * (r.size - reported_filled(tasks, id))
                    == st.accounts.accounts[inv_id].cash
            }
        }),
{
    let t = r.ticker@;
    let s = st.books[t];
    let f = market_fill(st, r);
    let st1 = f.0;
    lemma_fill_in_frame(st, r);
    lemma_tracking_facts(st);
    law_best_sell_price(s);
    super::laws::lemma_best_outcomes_sound(s, super::laws::ids_up_to(st.last_order_id));
    let s1 = st1.books[t];
    assert(st1.books.contains_key(t));
    assert(super::orderbook::book_wf(s1) && super::orderbook_laws::book_ids_distinct(s1)
        && super::orderbook_laws::book_ids_within(s1, super::laws::ids_up_to(st.last_order_id)));
    assert(super::orderbook_laws::live_sell_orders(s1) == super::orderbook_laws::live_sell_orders(s));
    if super::stock_manager::valid_order(st.stocks, r.ticker@, r.price, r.size) {
        let req1 = PortalNewOrderRequest { price: f.1, ..r };
        let p = super::spec::potential_order(req1);
        if st1.accounts.accounts.contains_key(inv_id) && super::account::covers(st1.accounts.accounts[inv_id], p) {
            let nid = (st1.last_order_id + 1) as OrderId;
            let lim = req1.price;
            let rec = super::order_info::OrderRecord {
                inv_id,
                ticker: req1.ticker,
                direction: req1.direction,
                limit_price: req1.price,
                initial_size: req1.size,
            };
            let st2a = PortalState {
                last_order_id: nid,
                accounts: super::account_manager::AccountsView {
                    accounts: super::account_manager::accounts_after_reservation(st1.accounts.accounts, inv_id, p),
                    ..st1.accounts
                },
                orders: st1.orders.insert(nid, rec),
                ..st1
            };
            let c = st.accounts.accounts[inv_id].cash;
            let sz: int = r.size as int;
            let li: int = lim as int;
            super::utils::lemma_cash_of_nonneg(r.size, lim);
            assert(0 <= sz * li <= 0xffff_ffff_ffff_ffff_ffff_ffff) by (nonlinear_arith)
                requires
                    0 <= sz <= 0xffff_ffff,
                    0 <= li <= 0xffff_ffff_ffff_ffff,
            ;
            assert(super::utils::cash_of(r.size, lim) == sz * li);
            let c0 = c - sz * li;
            assert(c0 >= 0);
            assert(st2a.accounts.accounts[inv_id].cash == c0);
            let bo = book_order(nid, req1);
            let breq = OrderbookRequest::NewOrder(bo);
            let b = book_step(st2a, t, breq);
            let m = match_buy(s1.sells, s1.deleted, bo, bo.size, s1.ticker);
            assert(b.1 == new_buy_outcome(s1, bo).1);
            lemma_match_buy_responses(s1.sells, s1.deleted, bo, bo.size, s1.ticker);
            lemma_match_buy_adds_none(s1.sells, s1.deleted, bo, bo.size, s1.ticker);
            assert(b.1.drop_last() =~= m.2);
            assert forall|k: int| 0 <= k < b.1.len() implies (#[trigger] b.1[k] matches OrderbookLog::OrderLog(resp) ==> response_order_id(resp) == nid
                || b.0.orders[response_order_id(resp)].inv_id != inv_id) by {
                if let OrderbookLog::OrderLog(resp) = b.1[k] {
                    let x = response_order_id(resp);
                    if x != nid {
                        assert(k < m.2.len());
                        assert(b.1[k] == m.2[k]);
                        let j = choose|j: int| 0 <= j < s1.sells.len() && !s1.deleted.contains(s1.sells[j].order_id) && (#[trigger] s1.sells[j]).order_id == x;
                        assert(live_sell(s1, j));
                        assert(super::orderbook_laws::live_sell_orders(s1).contains(s1.sells[j]));
                        let j0 = choose|j0: int| live_sell(s, j0) && s.sells[j0] == s1.sells[j];
                        assert(st.orders[s.sells[j0].order_id].inv_id != inv_id);
                    }
                }
            }
            assert forall|k: int| 0 <= k < b.1.len() - 1 implies !(#[trigger] b.1[k] matches OrderbookLog::EventLog(Event::OrderAdded(a)) && a.order_id == nid) by {
                assert(b.1[k] == m.2[k]);
            }
            assert(!b.0.resting.contains_key(nid));
            assert(super::orderbook_laws::id_fresh(s1, nid)) by {
                assert forall|i: int| 0 <= i < s1.buys.len() implies #[trigger] s1.buys[i].order_id != nid by {
                    assert(super::laws::ids_up_to(st.last_order_id).contains(s1.buys[i].order_id));
                }
                assert forall|j: int| 0 <= j < s1.sells.len() implies #[trigger] s1.sells[j].order_id != nid by {
                    assert(super::laws::ids_up_to(st.last_order_id).contains(s1.sells[j].order_id));
                }
            }
            super::orderbook_laws::law_new_order_fills(s1, bo);
            let fl = filled(b.1, nid);
            let fli: int = fl as int;
            assert(li * fli <= li * sz) by (nonlinear_arith)
                requires
                    fli <= sz,
                    0 <= li,
            ;
            assert(li * sz == sz * li) by (nonlinear_arith);
            lemma_logs_cash(b.0, b.1, inv_id, nid, lim);
            lemma_logs_step_frame(b.0, b.1);
            let l = logs_step(b.0, b.1);
            let cost = fill_cost(b.1, nid);
            assert(l.0.accounts.accounts[inv_id].cash == c0 + li * fli - cost);
            let (st2, tasks) = request_step(st, seqnum, PortalRequest::NewOrder(inv_id, r));
            let ack = seq![TaskView::OrderAck(inv_id, seqnum, nid)];
            assert(tasks == ack + l.1);
            lemma_logs_reported(b.0, b.1, nid);
            lemma_reported_concat(ack, l.1, nid);
            lemma_logs_cost(b.0, b.1, nid);
            lemma_cost_concat(ack, l.1, nid);
            assert(reported_filled(ack, nid) == 0 && reported_cost(ack, nid) == 0) by {
                reveal_with_fuel(reported_filled, 2);
                reveal_with_fuel(reported_cost, 2);
                assert(ack.drop_last() =~= Seq::<TaskView>::empty());
            }
            assert(reported_filled(tasks, nid) == fl);
            assert(reported_cost(tasks, nid) == cost);
            let pre = logs_step(b.0, b.1.drop_last());
            assert(l.1 == pre.1.push(log_step(pre.0, b.1.last()).1));
            assert(tasks.last() == l.1.last());
            lemma_logs_step_frame(b.0, b.1.drop_last());
            let dead_task = TaskView::OrderResponse(
                inv_id,
                OrderResponse::OrderDead(crate::types::orderbook::OrderDeadResponse { order_id: nid }),
            );
            assert(super::spec::died(b.1, nid) <==> tasks.last() == dead_task);
            super::laws::law_open_plus_filled(b.1, nid, bo.size);
            let open = super::spec::open_after(b.1, nid, bo.size);
            let oi: int = open as int;
            assert(st2 == refund_step(l.0, b.1, nid, bo.size));
            assert(l.0.orders[nid] == rec);
            assert(oi + fli == sz);
            assert(oi * li + li * fli == li * sz) by (nonlinear_arith)
                requires
                    oi + fli == sz,
            ;
            assert(super::utils::cash_of(open, lim) == oi * li) by {
                assert(0 <= oi * li <= 0xffff_ffff_ffff_ffff_ffff_ffff) by (nonlinear_arith)
                    requires
                        0 <= oi <= 0xffff_ffff,
                        0 <= li <= 0xffff_ffff_ffff_ffff,
                ;
            }
            assert(li * (sz - fli) == li * sz - li * fli) by (nonlinear_arith);
        }
    }
}

} // verus!

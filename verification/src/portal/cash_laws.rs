//! The cash law: a buy order's cash is reserved at its limit price when it
//! is accepted, and nothing it is later charged exceeds that, so no
//! investor's cash ever drops below zero.

use vstd::prelude::*;
use super::account::{AccountView, covers};
use super::account_manager::{AccountsView, accounts_after, accounts_after_reservation};
use super::order_info::{OrderRecord, resting_outcome};
use super::orderbook::{
    BookState, match_buy, match_sell, insert_buy, insert_sell, fill_logs, dead_log, added_log,
    request_outcome, best_buy_outcome, best_sell_outcome, pop_live_buy, pop_live_sell, should_rest,
    lemma_pop_live_buy, lemma_pop_live_sell, lemma_buy_slot_facts, lemma_sell_slot_facts, buy_slot, sell_slot,
};
use super::orderbook_laws::book_ids_within;
use super::spec::{
    PortalState, portal_wf, logs_step, book_step, market_fill, request_step, book_order,
    apply_updates, potential_order, refund_step, open_after, release,
};
use super::laws::{books_sound, ids_up_to, lemma_fill_in_frame, lemma_best_outcomes_sound, lemma_logs_step_frame};
use super::utils::{settlement, lemma_cash_of_nonneg};
use crate::types::account_manager::AccountUpdate;
use crate::types::common::{Direction, InvId, OrderId, Price, Size, Ticker};
use crate::types::order::{BuyOrder, SellOrder};
use crate::types::orderbook::{CancelOrderRequest, NewOrderRequest, OrderbookLog, OrderbookRequest};
use crate::types::portal::{OrderResponse, PortalNewOrderRequest, PortalRequest};
use crate::utils::response_order_id;

verus! {

/// Order `id` was accepted on side `dir` with limit price `price`.
pub open spec fn recorded_as(orders: Map<OrderId, OrderRecord>, id: OrderId, dir: Direction, price: Price) -> bool {
    &&& orders.contains_key(id)
    &&& orders[id].direction == dir
    &&& orders[id].limit_price == price
}

/// Every resting buy order was accepted as a buy at the price it rests at.
pub open spec fn buys_recorded(buys: Seq<BuyOrder>, orders: Map<OrderId, OrderRecord>) -> bool {
    forall|i: int| 0 <= i < buys.len() ==> recorded_as(orders, #[trigger] buys[i].order_id, Direction::Buy, buys[i].price)
}

/// Every resting sell order was accepted as a sell at the price it rests at.
pub open spec fn sells_recorded(sells: Seq<SellOrder>, orders: Map<OrderId, OrderRecord>) -> bool {
    forall|j: int| 0 <= j < sells.len() ==> recorded_as(orders, #[trigger] sells[j].order_id, Direction::Sell, sells[j].price)
}

/// Every resting order of the book is recorded on its side at its price.
pub open spec fn book_recorded(s: BookState, orders: Map<OrderId, OrderRecord>) -> bool {
    buys_recorded(s.buys, orders) && sells_recorded(s.sells, orders)
}

/// Every resting order of every book is recorded on its side at its price.
pub open spec fn books_recorded(st: PortalState) -> bool {
    forall|t: Seq<char>| #[trigger] st.books.contains_key(t) ==> book_recorded(st.books[t], st.orders)
}

/// A fill reported to a buy order is at no more than its limit price.
pub open spec fn fill_within_limit(orders: Map<OrderId, OrderRecord>, log: OrderbookLog) -> bool {
    match log {
        OrderbookLog::OrderLog(OrderResponse::OrderFill(f)) => orders[f.order_id].direction == Direction::Buy
            ==> f.fill_price <= orders[f.order_id].limit_price,
        _ => true,
    }
}

/// Every fill in `logs` reported to a buy order is at no more than its limit.
pub open spec fn fills_within_limit(orders: Map<OrderId, OrderRecord>, logs: Seq<OrderbookLog>) -> bool {
    forall|k: int| 0 <= k < logs.len() ==> fill_within_limit(orders, #[trigger] logs[k])
}

/// No account holds negative cash.
pub open spec fn cash_nonneg(accounts: Map<InvId, AccountView>) -> bool {
    forall|i: InvId| #[trigger] accounts.contains_key(i) ==> accounts[i].cash >= 0
}

proof fn lemma_fills_concat(orders: Map<OrderId, OrderRecord>, a: Seq<OrderbookLog>, b: Seq<OrderbookLog>)
    requires
        fills_within_limit(orders, a),
        fills_within_limit(orders, b),
    ensures
        fills_within_limit(orders, a + b),
{
    assert forall|k: int| 0 <= k < (a + b).len() implies fill_within_limit(orders, #[trigger] (a + b)[k]) by {
        if k < a.len() {
            assert((a + b)[k] == a[k]);
        } else {
            assert((a + b)[k] == b[k - a.len()]);
        }
    }
}

proof fn lemma_fill_logs_within(orders: Map<OrderId, OrderRecord>, id: OrderId, size: Size, price: Price, ticker: Ticker)
    requires
        orders[id].direction == Direction::Buy ==> price <= orders[id].limit_price,
    ensures
        fills_within_limit(orders, fill_logs(id, size, price, ticker)),
{
    let l = fill_logs(id, size, price, ticker);
    assert(fill_within_limit(orders, l[0]));
    assert(fill_within_limit(orders, l[1]));
}

proof fn lemma_push_no_fill(orders: Map<OrderId, OrderRecord>, a: Seq<OrderbookLog>, log: OrderbookLog)
    requires
        fills_within_limit(orders, a),
        !(log matches OrderbookLog::OrderLog(OrderResponse::OrderFill(_))),
    ensures
        fills_within_limit(orders, a.push(log)),
{
    assert forall|k: int| 0 <= k < a.push(log).len() implies fill_within_limit(orders, #[trigger] a.push(log)[k]) by {
        if k < a.len() {
            assert(a.push(log)[k] == a[k]);
        }
    }
}

/// Matching a buy order recorded at its price against recorded sell orders
/// leaves recorded sell orders, and no fill of a buy order in its logs is
/// above that buy order's limit.
proof fn lemma_match_buy_recorded(
    sells: Seq<SellOrder>,
    deleted: Set<OrderId>,
    req: NewOrderRequest,
    left: Size,
    ticker: Ticker,
    orders: Map<OrderId, OrderRecord>,
)
    requires
        sells_recorded(sells, orders),
        recorded_as(orders, req.order_id, Direction::Buy, req.price),
    ensures
        sells_recorded(match_buy(sells, deleted, req, left, ticker).0, orders),
        fills_within_limit(orders, match_buy(sells, deleted, req, left, ticker).2),
    decreases sells.len(),
{
    if sells.len() > 0 {
        let b = sells[0];
        assert(recorded_as(orders, b.order_id, Direction::Sell, b.price));
        let rest = sells.drop_first();
        assert(sells_recorded(rest, orders)) by {
            assert forall|j: int| 0 <= j < rest.len() implies recorded_as(orders, #[trigger] rest[j].order_id, Direction::Sell, rest[j].price) by {
                assert(rest[j] == sells[j + 1]);
            }
        }
        if deleted.contains(b.order_id) {
            lemma_match_buy_recorded(rest, deleted.remove(b.order_id), req, left, ticker, orders);
        } else if b.price > req.price || left == 0 {
        } else if left < b.size {
            let u = sells.update(0, SellOrder { size: (b.size - left) as Size, ..b });
            assert forall|j: int| 0 <= j < u.len() implies recorded_as(orders, #[trigger] u[j].order_id, Direction::Sell, u[j].price) by {
                if j > 0 {
                    assert(u[j] == sells[j]);
                }
            }
            lemma_fill_logs_within(orders, b.order_id, left, b.price, ticker);
            lemma_fill_logs_within(orders, req.order_id, left, b.price, ticker);
            lemma_fills_concat(orders, fill_logs(b.order_id, left, b.price, ticker), fill_logs(req.order_id, left, b.price, ticker));
        } else {
            lemma_match_buy_recorded(rest, deleted, req, (left - b.size) as Size, ticker, orders);
            let r = match_buy(rest, deleted, req, (left - b.size) as Size, ticker);
            let a1 = fill_logs(b.order_id, b.size, b.price, ticker);
            let a2 = seq![dead_log(b.order_id)];
            let a3 = fill_logs(req.order_id, b.size, b.price, ticker);
            lemma_fill_logs_within(orders, b.order_id, b.size, b.price, ticker);
            lemma_fill_logs_within(orders, req.order_id, b.size, b.price, ticker);
            assert(fill_within_limit(orders, a2[0]));
            lemma_fills_concat(orders, a1, a2);
            lemma_fills_concat(orders, a1 + a2, a3);
            lemma_fills_concat(orders, a1 + a2 + a3, r.2);
        }
    }
}

/// The sell-side counterpart of `lemma_match_buy_recorded`: resting buy
/// orders are filled at exactly their limit price.
proof fn lemma_match_sell_recorded(
    buys: Seq<BuyOrder>,
    deleted: Set<OrderId>,
    req: NewOrderRequest,
    left: Size,
    ticker: Ticker,
    orders: Map<OrderId, OrderRecord>,
)
    requires
        buys_recorded(buys, orders),
        recorded_as(orders, req.order_id, Direction::Sell, req.price),
    ensures
        buys_recorded(match_sell(buys, deleted, req, left, ticker).0, orders),
        fills_within_limit(orders, match_sell(buys, deleted, req, left, ticker).2),
    decreases buys.len(),
{
    if buys.len() > 0 {
        let b = buys[0];
        assert(recorded_as(orders, b.order_id, Direction::Buy, b.price));
        let rest = buys.drop_first();
        assert(buys_recorded(rest, orders)) by {
            assert forall|i: int| 0 <= i < rest.len() implies recorded_as(orders, #[trigger] rest[i].order_id, Direction::Buy, rest[i].price) by {
                assert(rest[i] == buys[i + 1]);
            }
        }
        if deleted.contains(b.order_id) {
            lemma_match_sell_recorded(rest, deleted.remove(b.order_id), req, left, ticker, orders);
        } else if b.price < req.price || left == 0 {
        } else if left < b.size {
            let u = buys.update(0, BuyOrder { size: (b.size - left) as Size, ..b });
            assert forall|i: int| 0 <= i < u.len() implies recorded_as(orders, #[trigger] u[i].order_id, Direction::Buy, u[i].price) by {
                if i > 0 {
                    assert(u[i] == buys[i]);
                }
            }
            lemma_fill_logs_within(orders, b.order_id, left, b.price, ticker);
            lemma_fill_logs_within(orders, req.order_id, left, b.price, ticker);
            lemma_fills_concat(orders, fill_logs(b.order_id, left, b.price, ticker), fill_logs(req.order_id, left, b.price, ticker));
        } else {
            lemma_match_sell_recorded(rest, deleted, req, (left - b.size) as Size, ticker, orders);
            let r = match_sell(rest, deleted, req, (left - b.size) as Size, ticker);
            let a1 = fill_logs(b.order_id, b.size, b.price, ticker);
            let a2 = seq![dead_log(b.order_id)];
            let a3 = fill_logs(req.order_id, b.size, b.price, ticker);
            lemma_fill_logs_within(orders, b.order_id, b.size, b.price, ticker);
            lemma_fill_logs_within(orders, req.order_id, b.size, b.price, ticker);
            assert(fill_within_limit(orders, a2[0]));
            lemma_fills_concat(orders, a1, a2);
            lemma_fills_concat(orders, a1 + a2, a3);
            lemma_fills_concat(orders, a1 + a2 + a3, r.2);
        }
    }
}

proof fn lemma_insert_buy_recorded(s: Seq<BuyOrder>, o: BuyOrder, orders: Map<OrderId, OrderRecord>)
    requires
        buys_recorded(s, orders),
        recorded_as(orders, o.order_id, Direction::Buy, o.price),
    ensures
        buys_recorded(insert_buy(s, o), orders),
{
    lemma_buy_slot_facts(s, o);
    let k = buy_slot(s, o) as int;
    let t = insert_buy(s, o);
    assert forall|i: int| 0 <= i < t.len() implies recorded_as(orders, #[trigger] t[i].order_id, Direction::Buy, t[i].price) by {
        if i < k {
            assert(t[i] == s[i]);
        } else if i > k {
            assert(t[i] == s[i - 1]);
        }
    }
}

proof fn lemma_insert_sell_recorded(s: Seq<SellOrder>, o: SellOrder, orders: Map<OrderId, OrderRecord>)
    requires
        sells_recorded(s, orders),
        recorded_as(orders, o.order_id, Direction::Sell, o.price),
    ensures
        sells_recorded(insert_sell(s, o), orders),
{
    lemma_sell_slot_facts(s, o);
    let k = sell_slot(s, o) as int;
    let t = insert_sell(s, o);
    assert forall|j: int| 0 <= j < t.len() implies recorded_as(orders, #[trigger] t[j].order_id, Direction::Sell, t[j].price) by {
        if j < k {
            assert(t[j] == s[j]);
        } else if j > k {
            assert(t[j] == s[j - 1]);
        }
    }
}

/// A book whose resting orders are recorded, handed a request whose new
/// order (if any) is recorded on its side at its price, keeps its resting
/// orders recorded, and no fill it reports to a buy order is above that
/// order's limit.
pub proof fn lemma_request_recorded(s: BookState, req: OrderbookRequest, orders: Map<OrderId, OrderRecord>)
    requires
        book_recorded(s, orders),
        req matches OrderbookRequest::NewOrder(r) ==> recorded_as(orders, r.order_id, r.direction, r.price),
    ensures
        book_recorded(request_outcome(s, req).0, orders),
        fills_within_limit(orders, request_outcome(s, req).1),
{
    match req {
        OrderbookRequest::NewOrder(r) => {
            match r.direction {
                Direction::Buy => {
                    lemma_match_buy_recorded(s.sells, s.deleted, r, r.size, s.ticker, orders);
                    let m = match_buy(s.sells, s.deleted, r, r.size, s.ticker);
                    if should_rest(r, m.3) {
                        lemma_insert_buy_recorded(
                            s.buys,
                            BuyOrder { order_id: r.order_id, size: m.3, price: r.price, timestamp: r.timestamp },
                            orders,
                        );
                        lemma_push_no_fill(orders, m.2, added_log(r, m.3, s.ticker));
                    } else {
                        lemma_push_no_fill(orders, m.2, dead_log(r.order_id));
                    }
                },
                Direction::Sell => {
                    lemma_match_sell_recorded(s.buys, s.deleted, r, r.size, s.ticker, orders);
                    let m = match_sell(s.buys, s.deleted, r, r.size, s.ticker);
                    if should_rest(r, m.3) {
                        lemma_insert_sell_recorded(
                            s.sells,
                            SellOrder { order_id: r.order_id, size: m.3, price: r.price, timestamp: r.timestamp },
                            orders,
                        );
                        lemma_push_no_fill(orders, m.2, added_log(r, m.3, s.ticker));
                    } else {
                        lemma_push_no_fill(orders, m.2, dead_log(r.order_id));
                    }
                },
            }
        },
        OrderbookRequest::CancelOrder(c) => {
            let l = request_outcome(s, req).1;
            assert(fill_within_limit(orders, l[0]));
            assert(fill_within_limit(orders, l[1]));
        },
    }
}

/// Looking up the best price only discards resting orders, so they stay
/// recorded.
pub proof fn lemma_best_recorded(s: BookState, orders: Map<OrderId, OrderRecord>)
    requires
        book_recorded(s, orders),
    ensures
        book_recorded(best_buy_outcome(s).1, orders),
        book_recorded(best_sell_outcome(s).1, orders),
{
    lemma_pop_live_buy(s.buys, s.deleted);
    lemma_pop_live_sell(s.sells, s.deleted);
    let pb = pop_live_buy(s.buys, s.deleted);
    let ps = pop_live_sell(s.sells, s.deleted);
    let tb = best_buy_outcome(s).1;
    let ts = best_sell_outcome(s).1;
    let nb = s.buys.len() - pb.1.len();
    let ns = s.sells.len() - ps.1.len();
    assert forall|i: int| 0 <= i < tb.buys.len() implies recorded_as(orders, #[trigger] tb.buys[i].order_id, Direction::Buy, tb.buys[i].price) by {
        if pb.0 is Some {
            if i == 0 {
                assert(tb.buys[0] == s.buys[nb - 1]);
            } else {
                assert(tb.buys[i] == pb.1[i - 1]);
                assert(pb.1[i - 1] == s.buys[nb + i - 1]);
            }
        } else {
            assert(tb.buys[i] == pb.1[i]);
            assert(pb.1[i] == s.buys[nb + i]);
        }
    }
    assert forall|j: int| 0 <= j < ts.sells.len() implies recorded_as(orders, #[trigger] ts.sells[j].order_id, Direction::Sell, ts.sells[j].price) by {
        if ps.0 is Some {
            if j == 0 {
                assert(ts.sells[0] == s.sells[ns - 1]);
            } else {
                assert(ts.sells[j] == ps.1[j - 1]);
                assert(ps.1[j - 1] == s.sells[ns + j - 1]);
            }
        } else {
            assert(ts.sells[j] == ps.1[j]);
            assert(ps.1[j] == s.sells[ns + j]);
        }
    }
}

/// An update that adds no negative cash.
pub open spec fn adds_no_debt(u: AccountUpdate) -> bool {
    match u {
        AccountUpdate::UpdCash(_, delta) => delta >= 0,
        _ => true,
    }
}

proof fn lemma_apply_updates_cash(accounts: Map<InvId, AccountView>, ups: Seq<AccountUpdate>)
    requires
        cash_nonneg(accounts),
        forall|k: int| 0 <= k < ups.len() ==> adds_no_debt(#[trigger] ups[k]),
    ensures
        cash_nonneg(apply_updates(accounts, ups)),
    decreases ups.len(),
{
    if ups.len() > 0 {
        let init = ups.drop_last();
        assert forall|k: int| 0 <= k < init.len() implies adds_no_debt(#[trigger] init[k]) by {
            assert(init[k] == ups[k]);
        }
        lemma_apply_updates_cash(accounts, init);
        let a = apply_updates(accounts, init);
        let u = ups.last();
        assert(adds_no_debt(ups[ups.len() - 1]));
        let b = accounts_after(a, u);
        assert forall|i: InvId| #[trigger] b.contains_key(i) implies b[i].cash >= 0 by {
            assert(a.contains_key(i));
        }
    }
}

/// Settling a response whose fill (if any) is within the buy order's limit
/// adds no negative cash.
proof fn lemma_settlement_no_debt(resp: OrderResponse, rec: OrderRecord, resting: Option<Size>)
    requires
        resp matches OrderResponse::OrderFill(f) ==> (rec.direction == Direction::Buy ==> f.fill_price <= rec.limit_price),
    ensures
        forall|k: int| 0 <= k < settlement(resp, rec, resting).len() ==> adds_no_debt(#[trigger] settlement(resp, rec, resting)[k]),
{
    let ups = settlement(resp, rec, resting);
    match resp {
        OrderResponse::OrderFill(f) => {
            lemma_cash_of_nonneg(f.fill_size, f.fill_price);
            if rec.direction == Direction::Buy {
                let s: int = f.fill_size as int;
                let d: int = rec.limit_price - f.fill_price;
                assert(0 <= s * d <= 0xffff_ffff_ffff_ffff_ffff_ffff) by (nonlinear_arith)
                    requires
                        0 <= s <= 0xffff_ffff,
                        0 <= d <= 0xffff_ffff_ffff_ffff,
                ;
                assert(adds_no_debt(ups[0]));
                assert(adds_no_debt(ups[1]));
            } else {
                assert(adds_no_debt(ups[0]));
            }
        },
        OrderResponse::OrderDead(_) => {
            match resting {
                Some(r) => {
                    lemma_cash_of_nonneg(r, rec.limit_price);
                    assert(adds_no_debt(ups[0]));
                },
                None => {},
            }
        },
    }
}

/// Processing logs whose fills are within the buy orders' limits keeps every
/// account's cash non-negative.
proof fn lemma_logs_step_cash(st: PortalState, logs: Seq<OrderbookLog>)
    requires
        cash_nonneg(st.accounts.accounts),
        fills_within_limit(st.orders, logs),
    ensures
        cash_nonneg(logs_step(st, logs).0.accounts.accounts),
    decreases logs.len(),
{
    if logs.len() > 0 {
        let init = logs.drop_last();
        assert forall|k: int| 0 <= k < init.len() implies fill_within_limit(st.orders, #[trigger] init[k]) by {
            assert(init[k] == logs[k]);
        }
        lemma_logs_step_cash(st, init);
        lemma_logs_step_frame(st, init);
        let r = logs_step(st, init).0;
        let log = logs.last();
        assert(fill_within_limit(st.orders, logs[logs.len() - 1]));
        match log {
            OrderbookLog::OrderLog(resp) => {
                let id = response_order_id(resp);
                let o = resting_outcome(r.resting, id);
                lemma_settlement_no_debt(resp, r.orders[id], o.0);
                lemma_apply_updates_cash(r.accounts.accounts, settlement(resp, r.orders[id], o.0));
            },
            OrderbookLog::EventLog(_) => {},
        }
    }
}

/// Reserving what a covered order needs keeps every account's cash
/// non-negative.
proof fn lemma_reservation_cash(accounts: Map<InvId, AccountView>, inv_id: InvId, req: PortalNewOrderRequest)
    requires
        cash_nonneg(accounts),
        accounts.contains_key(inv_id),
        covers(accounts[inv_id], potential_order(req)),
    ensures
        cash_nonneg(accounts_after_reservation(accounts, inv_id, potential_order(req))),
{
    lemma_cash_of_nonneg(req.size, req.price);
    let s: int = req.size as int;
    let p: int = req.price as int;
    assert(0 <= s * p <= 0xffff_ffff_ffff_ffff_ffff_ffff) by (nonlinear_arith)
        requires
            0 <= s <= 0xffff_ffff,
            0 <= p <= 0xffff_ffff_ffff_ffff,
    ;
    let b = accounts_after_reservation(accounts, inv_id, potential_order(req));
    assert forall|i: InvId| #[trigger] b.contains_key(i) implies b[i].cash >= 0 by {
        assert(accounts.contains_key(i));
    }
}

/// Books whose resting orders are recorded, and whose ids are all at most
/// `last`, stay recorded when an order with a higher id is recorded.
proof fn lemma_recorded_insert(s: BookState, orders: Map<OrderId, OrderRecord>, last: OrderId, id: OrderId, rec: OrderRecord)
    requires
        book_recorded(s, orders),
        book_ids_within(s, ids_up_to(last)),
        last < id,
    ensures
        book_recorded(s, orders.insert(id, rec)),
{
    let o2 = orders.insert(id, rec);
    assert forall|i: int| 0 <= i < s.buys.len() implies recorded_as(o2, #[trigger] s.buys[i].order_id, Direction::Buy, s.buys[i].price) by {
        assert(ids_up_to(last).contains(s.buys[i].order_id));
        assert(recorded_as(orders, s.buys[i].order_id, Direction::Buy, s.buys[i].price));
    }
    assert forall|j: int| 0 <= j < s.sells.len() implies recorded_as(o2, #[trigger] s.sells[j].order_id, Direction::Sell, s.sells[j].price) by {
        assert(ids_up_to(last).contains(s.sells[j].order_id));
        assert(recorded_as(orders, s.sells[j].order_id, Direction::Sell, s.sells[j].price));
    }
}

/// **Law: no investor's cash ever drops below zero.** A buy order is accepted
/// only when its owner has the cash for it at its price, and that cash is
/// reserved; a buy order is never filled above its limit price, and every
/// other settlement adds cash. So in a portal whose books are sound, whose
/// resting orders were all accepted on their side at the price they rest at,
/// and whose accounts hold no negative cash, every request keeps its resting
/// orders so recorded and leaves no account with negative cash.
pub proof fn law_cash_never_negative(st: PortalState, seqnum: u64, req: PortalRequest)
    requires
        portal_wf(st),
        books_sound(st),
        books_recorded(st),
        cash_nonneg(st.accounts.accounts),
        st.last_order_id < u64::MAX,
    ensures
        books_recorded(request_step(st, seqnum, req).0),
        cash_nonneg(request_step(st, seqnum, req).0.accounts.accounts),
{
    match req {
        PortalRequest::EventHistory(_) => {},
        PortalRequest::NewOrder(inv_id, r) => {
            if super::stock_manager::valid_order(st.stocks, r.ticker@, r.price, r.size) {
                let f = market_fill(st, r);
                lemma_fill_in_frame(st, r);
                let st1 = f.0;
                let t = r.ticker@;
                // The price lookup only discards resting orders.
                assert forall|u: Seq<char>| #[trigger] st1.books.contains_key(u) implies {
                    &&& book_recorded(st1.books[u], st1.orders)
                    &&& book_ids_within(st1.books[u], ids_up_to(st.last_order_id))
                } by {
                    assert(st.books.contains_key(u));
                    if u == t {
                        lemma_best_recorded(st.books[t], st.orders);
                        lemma_best_outcomes_sound(st.books[t], ids_up_to(st.last_order_id));
                    }
                }
                let req1 = PortalNewOrderRequest { price: f.1, ..r };
                let p = potential_order(req1);
                if st1.accounts.accounts.contains_key(inv_id) && covers(st1.accounts.accounts[inv_id], p) {
                    let order_id = (st1.last_order_id + 1) as OrderId;
                    let rec = OrderRecord {
                        inv_id,
                        ticker: req1.ticker,
                        direction: req1.direction,
                        limit_price: req1.price,
                        initial_size: req1.size,
                    };
                    let st2 = PortalState {
                        last_order_id: order_id,
                        accounts: AccountsView {
                            accounts: accounts_after_reservation(st1.accounts.accounts, inv_id, p),
                            ..st1.accounts
                        },
                        orders: st1.orders.insert(order_id, rec),
                        ..st1
                    };
                    lemma_reservation_cash(st1.accounts.accounts, inv_id, req1);
                    let breq = OrderbookRequest::NewOrder(book_order(order_id, req1));
                    let b = book_step(st2, t, breq);
                    assert forall|u: Seq<char>| #[trigger] st2.books.contains_key(u) implies book_recorded(st2.books[u], st2.orders) by {
                        lemma_recorded_insert(st1.books[u], st1.orders, st.last_order_id, order_id, rec);
                    }
                    if st2.books.contains_key(t) {
                        lemma_request_recorded(st2.books[t], breq, st2.orders);
                    }
                    assert(fills_within_limit(st2.orders, b.1));
                    assert forall|u: Seq<char>| #[trigger] b.0.books.contains_key(u) implies book_recorded(b.0.books[u], b.0.orders) by {
                        assert(st2.books.contains_key(u));
                    }
                    lemma_logs_step_frame(b.0, b.1);
                    lemma_logs_step_cash(b.0, b.1);
                    let l = logs_step(b.0, b.1).0;
                    assert forall|u: Seq<char>| #[trigger] l.books.contains_key(u) implies book_recorded(l.books[u], l.orders) by {
                        assert(b.0.books.contains_key(u));
                    }
                    lemma_refund_cash(l, b.1, order_id, req1.size);
                }
            }
        },
        PortalRequest::CancelOrder(inv_id, order_id) => {
            let r = resting_outcome(st.resting, order_id);
            let st1 = PortalState { resting: r.1, ..st };
            if r.0 is Some && st.orders.contains_key(order_id) && st.orders[order_id].inv_id == inv_id {
                let t = st.orders[order_id].ticker@;
                let breq = OrderbookRequest::CancelOrder(CancelOrderRequest { order_id });
                let b = book_step(st1, t, breq);
                if st1.books.contains_key(t) {
                    lemma_request_recorded(st1.books[t], breq, st1.orders);
                }
                assert(fills_within_limit(st1.orders, b.1));
                assert forall|u: Seq<char>| #[trigger] b.0.books.contains_key(u) implies book_recorded(b.0.books[u], b.0.orders) by {
                    assert(st1.books.contains_key(u));
                }
                lemma_logs_step_frame(b.0, b.1);
                lemma_logs_step_cash(b.0, b.1);
                let l = logs_step(b.0, b.1).0;
                assert forall|u: Seq<char>| #[trigger] l.books.contains_key(u) implies book_recorded(l.books[u], l.orders) by {
                    assert(b.0.books.contains_key(u));
                }
            }
        },
    }
}

/// **Law: a new portal's resting orders are recorded.** Every book that
/// `Portal::new` opens is empty, so it holds no order without a record.
pub proof fn law_new_books_recorded(stocks: Seq<(Ticker, super::stock_manager::StockRecord)>, orders: Map<OrderId, OrderRecord>)
    ensures
        forall|t: Seq<char>| #[trigger] crate::portal::books_of(stocks).contains_key(t) ==> book_recorded(crate::portal::books_of(stocks)[t], orders),
{
    assert forall|t: Seq<char>| #[trigger] crate::portal::books_of(stocks).contains_key(t) implies book_recorded(crate::portal::books_of(stocks)[t], orders) by {
        crate::portal::lemma_books_of_empty(stocks, t);
    }
}

/// Giving back what an order reserved for its unfilled shares adds no
/// negative cash.
proof fn lemma_refund_cash(st: PortalState, logs: Seq<OrderbookLog>, id: OrderId, size: Size)
    requires
        cash_nonneg(st.accounts.accounts),
    ensures
        cash_nonneg(refund_step(st, logs, id, size).accounts.accounts),
{
    let open = open_after(logs, id, size);
    lemma_cash_of_nonneg(open, st.orders[id].limit_price);
    let u = release(st.orders[id], open);
    assert(adds_no_debt(u));
    let b = accounts_after(st.accounts.accounts, u);
    assert forall|i: InvId| #[trigger] b.contains_key(i) implies b[i].cash >= 0 by {
        assert(st.accounts.accounts.contains_key(i));
    }
}

} // verus!

//! What a cancellation and a best-price lookup mean for later requests: a
//! cancelled order is never traded or reported again, and a lookup changes
//! nothing that a later request could see.

use vstd::prelude::*;
use super::orderbook::{
    BookState, book_wf, match_buy, match_sell, fill_logs, dead_log, added_log, cancel_outcome, request_outcome,
    best_buy_outcome, best_sell_outcome, should_rest,
    buy_slot, sell_slot, lemma_buy_slot_facts, lemma_sell_slot_facts, pop_live_buy, pop_live_sell,
    lemma_pop_live_buy, lemma_pop_live_sell, lemma_match_buy_pop, lemma_match_sell_pop, insert_buy, insert_sell,
};
use super::orderbook_laws::{
    book_ids_distinct, live_buy, live_sell, live_buy_orders, live_sell_orders, lemma_match_buy_shape,
    lemma_match_sell_shape, request_id,
};
use crate::types::common::{OrderId, Size, Ticker};
use crate::types::order::{BuyOrder, SellOrder};
use crate::types::orderbook::{CancelOrderRequest, NewOrderRequest, OrderbookLog, OrderbookRequest};
use crate::types::portal::OrderResponse;

verus! {

/// No live order of the book carries `x`.
pub open spec fn not_live(s: BookState, x: OrderId) -> bool {
    &&& forall|i: int| live_buy(s, i) ==> (#[trigger] s.buys[i]).order_id != x
    &&& forall|j: int| live_sell(s, j) ==> (#[trigger] s.sells[j]).order_id != x
}

/// No log reports a fill of order `x`.
pub open spec fn no_fill_for(logs: Seq<OrderbookLog>, x: OrderId) -> bool {
    forall|k: int|
        0 <= k < logs.len() ==> !(#[trigger] logs[k] matches OrderbookLog::OrderLog(OrderResponse::OrderFill(f)) && f.order_id
            == x)
}

proof fn lemma_no_fill_concat(a: Seq<OrderbookLog>, b: Seq<OrderbookLog>, x: OrderId)
    requires
        no_fill_for(a, x),
        no_fill_for(b, x),
    ensures
        no_fill_for(a + b, x),
{
    assert forall|k: int| 0 <= k < (a + b).len() implies !(#[trigger] (a + b)[k] matches OrderbookLog::OrderLog(
        OrderResponse::OrderFill(f),
    ) && f.order_id == x) by {
        if k < a.len() {
            assert((a + b)[k] == a[k]);
        } else {
            assert((a + b)[k] == b[k - a.len()]);
        }
    }
}

proof fn lemma_no_fill_fill_logs(id: OrderId, size: Size, price: u64, ticker: Ticker, x: OrderId)
    requires
        id != x,
    ensures
        no_fill_for(fill_logs(id, size, price, ticker), x),
{
    let l = fill_logs(id, size, price, ticker);
    assert(!(l[0] matches OrderbookLog::OrderLog(OrderResponse::OrderFill(f)) && f.order_id == x));
    assert(!(l[1] matches OrderbookLog::OrderLog(OrderResponse::OrderFill(f)) && f.order_id == x));
}

proof fn lemma_no_fill_push(a: Seq<OrderbookLog>, l: OrderbookLog, x: OrderId)
    requires
        no_fill_for(a, x),
        !(l matches OrderbookLog::OrderLog(OrderResponse::OrderFill(f)) && f.order_id == x),
    ensures
        no_fill_for(a.push(l), x),
{
    assert forall|k: int| 0 <= k < a.push(l).len() implies !(#[trigger] a.push(l)[k] matches OrderbookLog::OrderLog(
        OrderResponse::OrderFill(f),
    ) && f.order_id == x) by {
        if k < a.len() {
            assert(a.push(l)[k] == a[k]);
        }
    }
}

/// Matching an incoming buy order fills only live sell orders and the
/// incoming order, and leaves no sell order carrying `x` live that was not.
proof fn lemma_match_buy_not_live(
    sells: Seq<SellOrder>,
    deleted: Set<OrderId>,
    req: NewOrderRequest,
    left: Size,
    ticker: Ticker,
    x: OrderId,
)
    requires
        forall|i: int, j: int| #![trigger sells[i], sells[j]] 0 <= i < j < sells.len() ==> sells[i].order_id != sells[j].order_id,
        forall|j: int| 0 <= j < sells.len() && !deleted.contains(sells[j].order_id) ==> (#[trigger] sells[j]).order_id != x,
        req.order_id != x,
    ensures
        ({
            let m = match_buy(sells, deleted, req, left, ticker);
            &&& no_fill_for(m.2, x)
            &&& forall|j: int| 0 <= j < m.0.len() && !m.1.contains(m.0[j].order_id) ==> (#[trigger] m.0[j]).order_id != x
        }),
    decreases sells.len(),
{
    if sells.len() > 0 {
        let b = sells[0];
        let rest = sells.drop_first();
        assert forall|i: int, j: int| #![trigger rest[i], rest[j]] 0 <= i < j < rest.len() implies rest[i].order_id != rest[j].order_id by {
            assert(rest[i] == sells[i + 1] && rest[j] == sells[j + 1]);
        }
        if deleted.contains(b.order_id) {
            let d2 = deleted.remove(b.order_id);
            assert forall|j: int| 0 <= j < rest.len() && !d2.contains(rest[j].order_id) implies (#[trigger] rest[j]).order_id != x by {
                assert(rest[j] == sells[j + 1]);
                assert(sells[0].order_id != sells[j + 1].order_id);
            }
            lemma_match_buy_not_live(rest, d2, req, left, ticker, x);
        } else if b.price > req.price || left == 0 {
        } else if left < b.size {
            assert(sells[0].order_id != x);
            lemma_no_fill_fill_logs(b.order_id, left, b.price, ticker, x);
            lemma_no_fill_fill_logs(req.order_id, left, b.price, ticker, x);
            lemma_no_fill_concat(fill_logs(b.order_id, left, b.price, ticker), fill_logs(req.order_id, left, b.price, ticker), x);
            let m = match_buy(sells, deleted, req, left, ticker);
            assert forall|j: int| 0 <= j < m.0.len() && !m.1.contains(m.0[j].order_id) implies (#[trigger] m.0[j]).order_id != x by {
                if j > 0 {
                    assert(m.0[j] == sells[j]);
                }
            }
        } else {
            assert(sells[0].order_id != x);
            assert forall|j: int| 0 <= j < rest.len() && !deleted.contains(rest[j].order_id) implies (#[trigger] rest[j]).order_id != x by {
                assert(rest[j] == sells[j + 1]);
            }
            let left2 = (left - b.size) as Size;
            lemma_match_buy_not_live(rest, deleted, req, left2, ticker, x);
            let mr = match_buy(rest, deleted, req, left2, ticker);
            let a1 = fill_logs(b.order_id, b.size, b.price, ticker);
            let a2 = seq![dead_log(b.order_id)];
            let a3 = fill_logs(req.order_id, b.size, b.price, ticker);
            lemma_no_fill_fill_logs(b.order_id, b.size, b.price, ticker, x);
            lemma_no_fill_fill_logs(req.order_id, b.size, b.price, ticker, x);
            assert(no_fill_for(a2, x)) by {
                assert(!(a2[0] matches OrderbookLog::OrderLog(OrderResponse::OrderFill(f)) && f.order_id == x));
            }
            lemma_no_fill_concat(a1, a2, x);
            lemma_no_fill_concat(a1 + a2, a3, x);
            lemma_no_fill_concat(a1 + a2 + a3, mr.2, x);
        }
    }
}


/// The counterpart of `lemma_match_buy_not_live` for an incoming sell order.
proof fn lemma_match_sell_not_live(
    buys: Seq<BuyOrder>,
    deleted: Set<OrderId>,
    req: NewOrderRequest,
    left: Size,
    ticker: Ticker,
    x: OrderId,
)
    requires
        forall|i: int, j: int| #![trigger buys[i], buys[j]] 0 <= i < j < buys.len() ==> buys[i].order_id != buys[j].order_id,
        forall|j: int| 0 <= j < buys.len() && !deleted.contains(buys[j].order_id) ==> (#[trigger] buys[j]).order_id != x,
        req.order_id != x,
    ensures
        ({
            let m = match_sell(buys, deleted, req, left, ticker);
            &&& no_fill_for(m.2, x)
            &&& forall|j: int| 0 <= j < m.0.len() && !m.1.contains(m.0[j].order_id) ==> (#[trigger] m.0[j]).order_id != x
        }),
    decreases buys.len(),
{
    if buys.len() > 0 {
        let b = buys[0];
        let rest = buys.drop_first();
        assert forall|i: int, j: int| #![trigger rest[i], rest[j]] 0 <= i < j < rest.len() implies rest[i].order_id != rest[j].order_id by {
            assert(rest[i] == buys[i + 1] && rest[j] == buys[j + 1]);
        }
        if deleted.contains(b.order_id) {
            let d2 = deleted.remove(b.order_id);
            assert forall|j: int| 0 <= j < rest.len() && !d2.contains(rest[j].order_id) implies (#[trigger] rest[j]).order_id != x by {
                assert(rest[j] == buys[j + 1]);
                assert(buys[0].order_id != buys[j + 1].order_id);
            }
            lemma_match_sell_not_live(rest, d2, req, left, ticker, x);
        } else if b.price < req.price || left == 0 {
        } else if left < b.size {
            assert(buys[0].order_id != x);
            lemma_no_fill_fill_logs(b.order_id, left, b.price, ticker, x);
            lemma_no_fill_fill_logs(req.order_id, left, b.price, ticker, x);
            lemma_no_fill_concat(fill_logs(b.order_id, left, b.price, ticker), fill_logs(req.order_id, left, b.price, ticker), x);
            let m = match_sell(buys, deleted, req, left, ticker);
            assert forall|j: int| 0 <= j < m.0.len() && !m.1.contains(m.0[j].order_id) implies (#[trigger] m.0[j]).order_id != x by {
                if j > 0 {
                    assert(m.0[j] == buys[j]);
                }
            }
        } else {
            assert(buys[0].order_id != x);
            assert forall|j: int| 0 <= j < rest.len() && !deleted.contains(rest[j].order_id) implies (#[trigger] rest[j]).order_id != x by {
                assert(rest[j] == buys[j + 1]);
            }
            let left2 = (left - b.size) as Size;
            lemma_match_sell_not_live(rest, deleted, req, left2, ticker, x);
            let mr = match_sell(rest, deleted, req, left2, ticker);
            let a1 = fill_logs(b.order_id, b.size, b.price, ticker);
            let a2 = seq![dead_log(b.order_id)];
            let a3 = fill_logs(req.order_id, b.size, b.price, ticker);
            lemma_no_fill_fill_logs(b.order_id, b.size, b.price, ticker, x);
            lemma_no_fill_fill_logs(req.order_id, b.size, b.price, ticker, x);
            assert(no_fill_for(a2, x)) by {
                assert(!(a2[0] matches OrderbookLog::OrderLog(OrderResponse::OrderFill(f)) && f.order_id == x));
            }
            lemma_no_fill_concat(a1, a2, x);
            lemma_no_fill_concat(a1 + a2, a3, x);
            lemma_no_fill_concat(a1 + a2 + a3, mr.2, x);
        }
    }
}

/// **Law: a cancelled order is dead for good.** Cancelling order `x` reports
/// it dead and removed, and afterwards no live order carries `x` while every
/// other live order is unchanged.
pub proof fn law_cancel_outcome(s: BookState, x: OrderId)
    ensures
        ({
            let (s2, logs) = cancel_outcome(s, CancelOrderRequest { order_id: x });
            &&& logs == seq![
                dead_log(x),
                OrderbookLog::EventLog(crate::types::event::Event::OrderRemoved(crate::types::event::OrderRemoved { order_id: x })),
            ]
            &&& not_live(s2, x)
            &&& forall|o: BuyOrder| #[trigger] live_buy_orders(s2).contains(o) <==> live_buy_orders(s).contains(o) && o.order_id != x
            &&& forall|o: SellOrder| #[trigger] live_sell_orders(s2).contains(o) <==> live_sell_orders(s).contains(o) && o.order_id != x
        }),
{
    let s2 = cancel_outcome(s, CancelOrderRequest { order_id: x }).0;
    assert forall|o: BuyOrder| #[trigger] live_buy_orders(s2).contains(o) <==> live_buy_orders(s).contains(o) && o.order_id != x by {
        if live_buy_orders(s2).contains(o) {
            let i = choose|i: int| live_buy(s2, i) && s2.buys[i] == o;
            assert(live_buy(s, i));
        }
        if live_buy_orders(s).contains(o) && o.order_id != x {
            let i = choose|i: int| live_buy(s, i) && s.buys[i] == o;
            assert(live_buy(s2, i));
        }
    }
    assert forall|o: SellOrder| #[trigger] live_sell_orders(s2).contains(o) <==> live_sell_orders(s).contains(o) && o.order_id != x by {
        if live_sell_orders(s2).contains(o) {
            let j = choose|j: int| live_sell(s2, j) && s2.sells[j] == o;
            assert(live_sell(s, j));
        }
        if live_sell_orders(s).contains(o) && o.order_id != x {
            let j = choose|j: int| live_sell(s, j) && s.sells[j] == o;
            assert(live_sell(s2, j));
        }
    }
}

/// **Law: an order that is not live is never traded again.** In a
/// well-formed book with distinct ids in which no live order carries `x`,
/// a request (whose new order, if any, carries another id) reports no fill
/// of `x`, and afterwards still no live order carries `x`. With
/// `law_cancel_outcome`, a cancelled order is never filled by any later
/// request; and since a best-price lookup changes no live order
/// (`law_best_buy_price`, `law_best_sell_price`), it never reports one.
pub proof fn law_not_live_stays_dead(s: BookState, req: OrderbookRequest, x: OrderId)
    requires
        book_wf(s),
        book_ids_distinct(s),
        not_live(s, x),
        req is NewOrder ==> request_id(req) != x,
    ensures
        no_fill_for(request_outcome(s, req).1, x),
        not_live(request_outcome(s, req).0, x),
{
    match req {
        OrderbookRequest::NewOrder(r) => {
            let (s2, logs) = request_outcome(s, req);
            match r.direction {
                crate::types::common::Direction::Buy => {
                    lemma_match_buy_not_live(s.sells, s.deleted, r, r.size, s.ticker, x);
                    lemma_match_buy_shape(s.sells, s.deleted, r, r.size, s.ticker);
                    let m = match_buy(s.sells, s.deleted, r, r.size, s.ticker);
                    let d = s.sells.len() - m.0.len();
                    let o = BuyOrder { order_id: r.order_id, size: m.3, price: r.price, timestamp: r.timestamp };
                    // A buy order live afterwards was live before, or is the new one.
                    assert forall|k: int| 0 <= k < s.buys.len() && !m.1.contains(s.buys[k].order_id) implies (#[trigger] s.buys[k]).order_id != x by {
                        let id = s.buys[k].order_id;
                        if s.deleted.contains(id) {
                            let q = choose|q: int| 0 <= q < d && #[trigger] s.sells.subrange(0, d)[q].order_id == id;
                            assert(s.sells.subrange(0, d)[q] == s.sells[q]);
                            assert(s.buys[k].order_id != s.sells[q].order_id);
                        } else {
                            assert(live_buy(s, k));
                        }
                    }
                    if should_rest(r, m.3) {
                        lemma_buy_slot_facts(s.buys, o);
                        let q = buy_slot(s.buys, o) as int;
                        assert forall|i: int| live_buy(s2, i) implies (#[trigger] s2.buys[i]).order_id != x by {
                            if i < q {
                                assert(s2.buys[i] == s.buys[i]);
                            } else if i > q {
                                assert(s2.buys[i] == s.buys[i - 1]);
                            }
                        }
                        lemma_no_fill_push(m.2, added_log(r, m.3, s.ticker), x);
                    } else {
                        assert forall|i: int| live_buy(s2, i) implies (#[trigger] s2.buys[i]).order_id != x by {
                            assert(s2.buys[i] == s.buys[i]);
                        }
                        lemma_no_fill_push(m.2, dead_log(r.order_id), x);
                    }
                    assert forall|j: int| live_sell(s2, j) implies (#[trigger] s2.sells[j]).order_id != x by {
                        assert(s2.sells[j] == m.0[j]);
                    }
                },
                crate::types::common::Direction::Sell => {
                    lemma_match_sell_not_live(s.buys, s.deleted, r, r.size, s.ticker, x);
                    lemma_match_sell_shape(s.buys, s.deleted, r, r.size, s.ticker);
                    let m = match_sell(s.buys, s.deleted, r, r.size, s.ticker);
                    let d = s.buys.len() - m.0.len();
                    let o = SellOrder { order_id: r.order_id, size: m.3, price: r.price, timestamp: r.timestamp };
                    assert forall|k: int| 0 <= k < s.sells.len() && !m.1.contains(s.sells[k].order_id) implies (#[trigger] s.sells[k]).order_id != x by {
                        let id = s.sells[k].order_id;
                        if s.deleted.contains(id) {
                            let q = choose|q: int| 0 <= q < d && #[trigger] s.buys.subrange(0, d)[q].order_id == id;
                            assert(s.buys.subrange(0, d)[q] == s.buys[q]);
                            assert(s.buys[q].order_id != s.sells[k].order_id);
                        } else {
                            assert(live_sell(s, k));
                        }
                    }
                    if should_rest(r, m.3) {
                        lemma_sell_slot_facts(s.sells, o);
                        let q = sell_slot(s.sells, o) as int;
                        assert forall|j: int| live_sell(s2, j) implies (#[trigger] s2.sells[j]).order_id != x by {
                            if j < q {
                                assert(s2.sells[j] == s.sells[j]);
                            } else if j > q {
                                assert(s2.sells[j] == s.sells[j - 1]);
                            }
                        }
                        lemma_no_fill_push(m.2, added_log(r, m.3, s.ticker), x);
                    } else {
                        assert forall|j: int| live_sell(s2, j) implies (#[trigger] s2.sells[j]).order_id != x by {
                            assert(s2.sells[j] == s.sells[j]);
                        }
                        lemma_no_fill_push(m.2, dead_log(r.order_id), x);
                    }
                    assert forall|i: int| live_buy(s2, i) implies (#[trigger] s2.buys[i]).order_id != x by {
                        assert(s2.buys[i] == m.0[i]);
                    }
                },
            }
        },
        OrderbookRequest::CancelOrder(c) => {
            let (s2, logs) = request_outcome(s, req);
            assert(!(logs[0] matches OrderbookLog::OrderLog(OrderResponse::OrderFill(f)) && f.order_id == x));
            assert(!(logs[1] matches OrderbookLog::OrderLog(OrderResponse::OrderFill(f)) && f.order_id == x));
            assert forall|i: int| live_buy(s2, i) implies (#[trigger] s2.buys[i]).order_id != x by {
                assert(live_buy(s, i));
            }
            assert forall|j: int| live_sell(s2, j) implies (#[trigger] s2.sells[j]).order_id != x by {
                assert(live_sell(s, j));
            }
        },
    }
}

/// Some order of `sells` carries `id`.
pub open spec fn sell_side_carries(sells: Seq<SellOrder>, id: OrderId) -> bool {
    exists|j: int| 0 <= j < sells.len() && (#[trigger] sells[j]).order_id == id
}

/// Some order of `buys` carries `id`.
pub open spec fn buy_side_carries(buys: Seq<BuyOrder>, id: OrderId) -> bool {
    exists|i: int| 0 <= i < buys.len() && (#[trigger] buys[i]).order_id == id
}

/// Matching an incoming buy order depends on the cancelled ids only through
/// the ids of sell orders: with two sets of cancelled ids that agree on
/// them, it gives the same sell side, logs and open shares, and the sets
/// after it still agree on them and keep every other id as it was.
proof fn lemma_match_buy_agree(
    sells: Seq<SellOrder>,
    d1: Set<OrderId>,
    d2: Set<OrderId>,
    req: NewOrderRequest,
    left: Size,
    ticker: Ticker,
)
    requires
        forall|i: int, j: int| #![trigger sells[i], sells[j]] 0 <= i < j < sells.len() ==> sells[i].order_id != sells[j].order_id,
        forall|j: int| 0 <= j < sells.len() ==> (d1.contains(#[trigger] sells[j].order_id) <==> d2.contains(sells[j].order_id)),
    ensures
        ({
            let m1 = match_buy(sells, d1, req, left, ticker);
            let m2 = match_buy(sells, d2, req, left, ticker);
            &&& m1.0 == m2.0
            &&& m1.2 == m2.2
            &&& m1.3 == m2.3
            &&& forall|id: OrderId| #[trigger] sell_side_carries(sells, id) ==> (m1.1.contains(id) <==> m2.1.contains(id))
            &&& forall|id: OrderId| !sell_side_carries(sells, id) ==> (#[trigger] m1.1.contains(id) <==> d1.contains(id))
            &&& forall|id: OrderId| !sell_side_carries(sells, id) ==> (#[trigger] m2.1.contains(id) <==> d2.contains(id))
        }),
    decreases sells.len(),
{
    if sells.len() > 0 {
        let b = sells[0];
        let rest = sells.drop_first();
        assert forall|i: int, j: int| #![trigger rest[i], rest[j]] 0 <= i < j < rest.len() implies rest[i].order_id != rest[j].order_id by {
            assert(rest[i] == sells[i + 1] && rest[j] == sells[j + 1]);
        }
        assert forall|id: OrderId| sell_side_carries(rest, id) implies #[trigger] sell_side_carries(sells, id) by {
            let j = choose|j: int| 0 <= j < rest.len() && (#[trigger] rest[j]).order_id == id;
            assert(sells[j + 1] == rest[j]);
        }
        assert forall|id: OrderId| #[trigger] sell_side_carries(sells, id) && id != b.order_id implies sell_side_carries(rest, id) by {
            let j = choose|j: int| 0 <= j < sells.len() && (#[trigger] sells[j]).order_id == id;
            assert(rest[j - 1] == sells[j]);
        }
        assert(!sell_side_carries(rest, b.order_id)) by {
            if sell_side_carries(rest, b.order_id) {
                let j = choose|j: int| 0 <= j < rest.len() && (#[trigger] rest[j]).order_id == b.order_id;
                assert(sells[j + 1] == rest[j]);
                assert(sells[0].order_id != sells[j + 1].order_id);
            }
        }
        assert(sell_side_carries(sells, b.order_id)) by {
            assert(sells[0].order_id == b.order_id);
        }
        assert(d1.contains(sells[0].order_id) <==> d2.contains(sells[0].order_id));
        if d1.contains(b.order_id) {
            let e1 = d1.remove(b.order_id);
            let e2 = d2.remove(b.order_id);
            assert forall|j: int| 0 <= j < rest.len() implies (e1.contains(#[trigger] rest[j].order_id) <==> e2.contains(rest[j].order_id)) by {
                assert(rest[j] == sells[j + 1]);
            }
            lemma_match_buy_agree(rest, e1, e2, req, left, ticker);
        } else if b.price > req.price || left == 0 {
        } else if left < b.size {
        } else {
            assert forall|j: int| 0 <= j < rest.len() implies (d1.contains(#[trigger] rest[j].order_id) <==> d2.contains(rest[j].order_id)) by {
                assert(rest[j] == sells[j + 1]);
            }
            lemma_match_buy_agree(rest, d1, d2, req, (left - b.size) as Size, ticker);
        }
    }
}

/// **Law: looking up the best bid twice gives the same answer and changes
/// nothing the second time.**
pub proof fn law_best_buy_idempotent(s: BookState)
    ensures
        best_buy_outcome(best_buy_outcome(s).1) == best_buy_outcome(s),
{
    lemma_pop_live_buy(s.buys, s.deleted);
    let p = pop_live_buy(s.buys, s.deleted);
    let t = best_buy_outcome(s).1;
    match p.0 {
        Some(b) => {
            assert(t.buys[0] == b);
            assert(t.buys.drop_first() =~= p.1);
            assert(seq![t.buys[0]] + t.buys.drop_first() =~= t.buys);
        },
        None => {
            assert(t.buys =~= Seq::<BuyOrder>::empty());
        },
    }
}

/// The live orders among `buys` when the ids in `d` are cancelled.
pub open spec fn live_buys_in(buys: Seq<BuyOrder>, d: Set<OrderId>) -> Set<BuyOrder> {
    Set::new(|q: BuyOrder| exists|i: int| 0 <= i < buys.len() && !d.contains(buys[i].order_id) && #[trigger] buys[i] == q)
}

/// The live orders of a buy side after a new order may have been inserted,
/// with cancelled ids that agree with the old ones on the side's orders.
proof fn lemma_live_buys_insert(buys: Seq<BuyOrder>, d: Set<OrderId>, d2: Set<OrderId>, o: BuyOrder, rests: bool)
    requires
        forall|i: int| 0 <= i < buys.len() ==> (d2.contains(#[trigger] buys[i].order_id) <==> d.contains(buys[i].order_id)),
    ensures
        live_buys_in(if rests { insert_buy(buys, o) } else { buys }, d2) == (if rests && !d2.contains(o.order_id) {
            live_buys_in(buys, d).insert(o)
        } else {
            live_buys_in(buys, d)
        }),
{
    let out = if rests { insert_buy(buys, o) } else { buys };
    let want = if rests && !d2.contains(o.order_id) { live_buys_in(buys, d).insert(o) } else { live_buys_in(buys, d) };
    lemma_buy_slot_facts(buys, o);
    let k = buy_slot(buys, o) as int;
    assert forall|q: BuyOrder| live_buys_in(out, d2).contains(q) implies want.contains(q) by {
        let i = choose|i: int| 0 <= i < out.len() && !d2.contains(out[i].order_id) && #[trigger] out[i] == q;
        if rests {
            if i < k {
                assert(out[i] == buys[i]);
                assert(live_buys_in(buys, d).contains(q));
            } else if i > k {
                assert(out[i] == buys[i - 1]);
                assert(live_buys_in(buys, d).contains(q));
            }
        } else {
            assert(live_buys_in(buys, d).contains(q));
        }
    }
    assert forall|q: BuyOrder| want.contains(q) implies live_buys_in(out, d2).contains(q) by {
        if live_buys_in(buys, d).contains(q) {
            let i = choose|i: int| 0 <= i < buys.len() && !d.contains(buys[i].order_id) && #[trigger] buys[i] == q;
            if rests {
                if i < k {
                    assert(out[i] == buys[i]);
                } else {
                    assert(out[i + 1] == buys[i]);
                }
            }
        } else {
            assert(out[k] == o);
        }
    }
    assert(live_buys_in(out, d2) =~= want);
}

/// **Law: looking up the best bid changes nothing that a later request can
/// see.** In a well-formed book with distinct ids, a request (whose new
/// order, if any, carries an id that no buy order of the book carries) gives
/// the same logs after the lookup as without it, and leaves the same live
/// orders.
pub proof fn law_best_buy_transparent(s: BookState, req: OrderbookRequest)
    requires
        book_wf(s),
        book_ids_distinct(s),
        req is NewOrder ==> !buy_side_carries(s.buys, request_id(req)),
    ensures
        ({
            let t = best_buy_outcome(s).1;
            let a = request_outcome(s, req);
            let b = request_outcome(t, req);
            &&& b.1 == a.1
            &&& live_buy_orders(b.0) == live_buy_orders(a.0)
            &&& live_sell_orders(b.0) == live_sell_orders(a.0)
        }),
{
    let t = best_buy_outcome(s).1;
    let a = request_outcome(s, req);
    let b = request_outcome(t, req);
    super::orderbook_laws::law_best_buy_price(s);
    lemma_pop_live_buy(s.buys, s.deleted);
    super::orderbook_laws::lemma_pop_live_buy_discards(s.buys, s.deleted);
    let p = pop_live_buy(s.buys, s.deleted);
    let n = s.buys.len() - p.1.len() - (if p.0 is Some { 1int } else { 0int });
    // The lookup forgets only ids of buy orders.
    assert forall|id: OrderId| !buy_side_carries(s.buys, id) implies (#[trigger] p.2.contains(id) <==> s.deleted.contains(id)) by {
        if s.deleted.contains(id) && !p.2.contains(id) {
            let q = choose|q: int| 0 <= q < n && #[trigger] s.buys.subrange(0, n)[q].order_id == id;
            assert(s.buys.subrange(0, n)[q] == s.buys[q]);
        }
    }
    assert(t.deleted == p.2 && t.sells == s.sells && t.ticker == s.ticker);
    match req {
        OrderbookRequest::CancelOrder(c) => {
            law_cancel_outcome(s, c.order_id);
            law_cancel_outcome(t, c.order_id);
            assert(live_buy_orders(b.0) =~= live_buy_orders(a.0));
            assert(live_sell_orders(b.0) =~= live_sell_orders(a.0));
        },
        OrderbookRequest::NewOrder(r) => {
            match r.direction {
                crate::types::common::Direction::Sell => {
                    lemma_match_sell_pop(s.buys, s.deleted, r, r.size, s.ticker);
                    match p.0 {
                        Some(bo) => {
                            assert(t.buys == seq![bo] + p.1);
                        },
                        None => {
                            assert(t.buys == p.1);
                        },
                    }
                    assert(b == a);
                },
                crate::types::common::Direction::Buy => {
                    // Sell ids are not buy ids, so the two books cancel the same sell orders.
                    assert forall|j: int| 0 <= j < s.sells.len() implies (s.deleted.contains(#[trigger] s.sells[j].order_id)
                        <==> p.2.contains(s.sells[j].order_id)) by {
                        if buy_side_carries(s.buys, s.sells[j].order_id) {
                            let i = choose|i: int| 0 <= i < s.buys.len() && (#[trigger] s.buys[i]).order_id == s.sells[j].order_id;
                            assert(s.buys[i].order_id != s.sells[j].order_id);
                        }
                    }
                    lemma_match_buy_agree(s.sells, s.deleted, p.2, r, r.size, s.ticker);
                    lemma_match_buy_shape(s.sells, s.deleted, r, r.size, s.ticker);
                    let m1 = match_buy(s.sells, s.deleted, r, r.size, s.ticker);
                    let m2 = match_buy(s.sells, p.2, r, r.size, s.ticker);
                    let dd = s.sells.len() - m1.0.len();
                    let o = BuyOrder { order_id: r.order_id, size: m1.3, price: r.price, timestamp: r.timestamp };
                    let rests = should_rest(r, m1.3);
                    // Logs.
                    assert(b.1 == a.1);
                    // Sells: the same orders, cancelled alike.
                    assert forall|j: int| 0 <= j < m1.0.len() implies #[trigger] sell_side_carries(s.sells, m1.0[j].order_id) by {
                        if j == 0 {
                            assert(s.sells[dd].order_id == m1.0[0].order_id);
                        } else {
                            assert(m1.0[j] == s.sells[j + dd]);
                        }
                    }
                    assert forall|q: SellOrder| live_sell_orders(a.0).contains(q) <==> live_sell_orders(b.0).contains(q) by {
                        if live_sell_orders(a.0).contains(q) {
                            let j = choose|j: int| live_sell(a.0, j) && a.0.sells[j] == q;
                            assert(sell_side_carries(s.sells, m1.0[j].order_id));
                            assert(live_sell(b.0, j));
                        }
                        if live_sell_orders(b.0).contains(q) {
                            let j = choose|j: int| live_sell(b.0, j) && b.0.sells[j] == q;
                            assert(sell_side_carries(s.sells, m1.0[j].order_id));
                            assert(live_sell(a.0, j));
                        }
                    }
                    assert(live_sell_orders(b.0) =~= live_sell_orders(a.0));
                    // Buys: the live orders of the book, and the new one alike.
                    assert forall|i: int| 0 <= i < s.buys.len() implies (m1.1.contains(#[trigger] s.buys[i].order_id) <==> s.deleted.contains(s.buys[i].order_id)) by {
                        if sell_side_carries(s.sells, s.buys[i].order_id) {
                            let j = choose|j: int| 0 <= j < s.sells.len() && (#[trigger] s.sells[j]).order_id == s.buys[i].order_id;
                            assert(s.buys[i].order_id != s.sells[j].order_id);
                        }
                    }
                    assert forall|i: int| 0 <= i < t.buys.len() implies (m2.1.contains(#[trigger] t.buys[i].order_id) <==> t.deleted.contains(t.buys[i].order_id)) by {
                        let i0 = if p.0 is Some { n + i } else { n + i };
                        if p.0 is Some {
                            if i == 0 {
                                assert(t.buys[0] == s.buys[s.buys.len() - p.1.len() - 1]);
                            } else {
                                assert(t.buys[i] == p.1[i - 1]);
                                assert(p.1[i - 1] == s.buys[s.buys.len() - p.1.len() + i - 1]);
                            }
                        } else {
                            assert(t.buys[i] == p.1[i]);
                            assert(p.1[i] == s.buys[s.buys.len() - p.1.len() + i]);
                        }
                        let id = t.buys[i].order_id;
                        assert(buy_side_carries(s.buys, id));
                        if sell_side_carries(s.sells, id) {
                            let j = choose|j: int| 0 <= j < s.sells.len() && (#[trigger] s.sells[j]).order_id == id;
                            let k = choose|k: int| 0 <= k < s.buys.len() && (#[trigger] s.buys[k]).order_id == id;
                            assert(s.buys[k].order_id != s.sells[j].order_id);
                        }
                    }
                    assert(m1.1.contains(o.order_id) <==> m2.1.contains(o.order_id)) by {
                        if !sell_side_carries(s.sells, o.order_id) {
                            assert(p.2.contains(o.order_id) <==> s.deleted.contains(o.order_id));
                        }
                    }
                    lemma_live_buys_insert(s.buys, s.deleted, m1.1, o, rests);
                    lemma_live_buys_insert(t.buys, t.deleted, m2.1, o, rests);
                    lemma_live_buys_in_eq(s);
                    lemma_live_buys_in_eq(t);
                    lemma_live_buys_in_eq(a.0);
                    lemma_live_buys_in_eq(b.0);
                },
            }
        },
    }
}

proof fn lemma_live_buys_in_eq(s: BookState)
    ensures
        live_buys_in(s.buys, s.deleted) == live_buy_orders(s),
{
    assert forall|q: BuyOrder| live_buys_in(s.buys, s.deleted).contains(q) <==> live_buy_orders(s).contains(q) by {
        if live_buys_in(s.buys, s.deleted).contains(q) {
            let i = choose|i: int| 0 <= i < s.buys.len() && !s.deleted.contains(s.buys[i].order_id) && #[trigger] s.buys[i] == q;
            assert(live_buy(s, i));
        }
        if live_buy_orders(s).contains(q) {
            let i = choose|i: int| live_buy(s, i) && s.buys[i] == q;
            assert(0 <= i < s.buys.len() && !s.deleted.contains(s.buys[i].order_id) && s.buys[i] == q);
        }
    }
    assert(live_buys_in(s.buys, s.deleted) =~= live_buy_orders(s));
}


/// The counterpart of `lemma_match_buy_agree` for an incoming sell order.
proof fn lemma_match_sell_agree(
    buys: Seq<BuyOrder>,
    d1: Set<OrderId>,
    d2: Set<OrderId>,
    req: NewOrderRequest,
    left: Size,
    ticker: Ticker,
)
    requires
        forall|i: int, j: int| #![trigger buys[i], buys[j]] 0 <= i < j < buys.len() ==> buys[i].order_id != buys[j].order_id,
        forall|j: int| 0 <= j < buys.len() ==> (d1.contains(#[trigger] buys[j].order_id) <==> d2.contains(buys[j].order_id)),
    ensures
        ({
            let m1 = match_sell(buys, d1, req, left, ticker);
            let m2 = match_sell(buys, d2, req, left, ticker);
            &&& m1.0 == m2.0
            &&& m1.2 == m2.2
            &&& m1.3 == m2.3
            &&& forall|id: OrderId| #[trigger] buy_side_carries(buys, id) ==> (m1.1.contains(id) <==> m2.1.contains(id))
            &&& forall|id: OrderId| !buy_side_carries(buys, id) ==> (#[trigger] m1.1.contains(id) <==> d1.contains(id))
            &&& forall|id: OrderId| !buy_side_carries(buys, id) ==> (#[trigger] m2.1.contains(id) <==> d2.contains(id))
        }),
    decreases buys.len(),
{
    if buys.len() > 0 {
        let b = buys[0];
        let rest = buys.drop_first();
        assert forall|i: int, j: int| #![trigger rest[i], rest[j]] 0 <= i < j < rest.len() implies rest[i].order_id != rest[j].order_id by {
            assert(rest[i] == buys[i + 1] && rest[j] == buys[j + 1]);
        }
        assert forall|id: OrderId| buy_side_carries(rest, id) implies #[trigger] buy_side_carries(buys, id) by {
            let j = choose|j: int| 0 <= j < rest.len() && (#[trigger] rest[j]).order_id == id;
            assert(buys[j + 1] == rest[j]);
        }
        assert forall|id: OrderId| #[trigger] buy_side_carries(buys, id) && id != b.order_id implies buy_side_carries(rest, id) by {
            let j = choose|j: int| 0 <= j < buys.len() && (#[trigger] buys[j]).order_id == id;
            assert(rest[j - 1] == buys[j]);
        }
        assert(!buy_side_carries(rest, b.order_id)) by {
            if buy_side_carries(rest, b.order_id) {
                let j = choose|j: int| 0 <= j < rest.len() && (#[trigger] rest[j]).order_id == b.order_id;
                assert(buys[j + 1] == rest[j]);
                assert(buys[0].order_id != buys[j + 1].order_id);
            }
        }
        assert(buy_side_carries(buys, b.order_id)) by {
            assert(buys[0].order_id == b.order_id);
        }
        assert(d1.contains(buys[0].order_id) <==> d2.contains(buys[0].order_id));
        if d1.contains(b.order_id) {
            let e1 = d1.remove(b.order_id);
            let e2 = d2.remove(b.order_id);
            assert forall|j: int| 0 <= j < rest.len() implies (e1.contains(#[trigger] rest[j].order_id) <==> e2.contains(rest[j].order_id)) by {
                assert(rest[j] == buys[j + 1]);
            }
            lemma_match_sell_agree(rest, e1, e2, req, left, ticker);
        } else if b.price < req.price || left == 0 {
        } else if left < b.size {
        } else {
            assert forall|j: int| 0 <= j < rest.len() implies (d1.contains(#[trigger] rest[j].order_id) <==> d2.contains(rest[j].order_id)) by {
                assert(rest[j] == buys[j + 1]);
            }
            lemma_match_sell_agree(rest, d1, d2, req, (left - b.size) as Size, ticker);
        }
    }
}

/// **Law: looking up the best ask twice gives the same answer and changes
/// nothing the second time.**
pub proof fn law_best_sell_idempotent(s: BookState)
    ensures
        best_sell_outcome(best_sell_outcome(s).1) == best_sell_outcome(s),
{
    lemma_pop_live_sell(s.sells, s.deleted);
    let p = pop_live_sell(s.sells, s.deleted);
    let t = best_sell_outcome(s).1;
    match p.0 {
        Some(b) => {
            assert(t.sells[0] == b);
            assert(t.sells.drop_first() =~= p.1);
            assert(seq![t.sells[0]] + t.sells.drop_first() =~= t.sells);
        },
        None => {
            assert(t.sells =~= Seq::<SellOrder>::empty());
        },
    }
}

/// The live orders among `sells` when the ids in `d` are cancelled.
pub open spec fn live_sells_in(sells: Seq<SellOrder>, d: Set<OrderId>) -> Set<SellOrder> {
    Set::new(|q: SellOrder| exists|i: int| 0 <= i < sells.len() && !d.contains(sells[i].order_id) && #[trigger] sells[i] == q)
}

/// The live orders of a sell side after a new order may have been inserted,
/// with cancelled ids that agree with the old ones on the side's orders.
proof fn lemma_live_sells_insert(sells: Seq<SellOrder>, d: Set<OrderId>, d2: Set<OrderId>, o: SellOrder, rests: bool)
    requires
        forall|i: int| 0 <= i < sells.len() ==> (d2.contains(#[trigger] sells[i].order_id) <==> d.contains(sells[i].order_id)),
    ensures
        live_sells_in(if rests { insert_sell(sells, o) } else { sells }, d2) == (if rests && !d2.contains(o.order_id) {
            live_sells_in(sells, d).insert(o)
        } else {
            live_sells_in(sells, d)
        }),
{
    let out = if rests { insert_sell(sells, o) } else { sells };
    let want = if rests && !d2.contains(o.order_id) { live_sells_in(sells, d).insert(o) } else { live_sells_in(sells, d) };
    lemma_sell_slot_facts(sells, o);
    let k = sell_slot(sells, o) as int;
    assert forall|q: SellOrder| live_sells_in(out, d2).contains(q) implies want.contains(q) by {
        let i = choose|i: int| 0 <= i < out.len() && !d2.contains(out[i].order_id) && #[trigger] out[i] == q;
        if rests {
            if i < k {
                assert(out[i] == sells[i]);
                assert(live_sells_in(sells, d).contains(q));
            } else if i > k {
                assert(out[i] == sells[i - 1]);
                assert(live_sells_in(sells, d).contains(q));
            }
        } else {
            assert(live_sells_in(sells, d).contains(q));
        }
    }
    assert forall|q: SellOrder| want.contains(q) implies live_sells_in(out, d2).contains(q) by {
        if live_sells_in(sells, d).contains(q) {
            let i = choose|i: int| 0 <= i < sells.len() && !d.contains(sells[i].order_id) && #[trigger] sells[i] == q;
            if rests {
                if i < k {
                    assert(out[i] == sells[i]);
                } else {
                    assert(out[i + 1] == sells[i]);
                }
            }
        } else {
            assert(out[k] == o);
        }
    }
    assert(live_sells_in(out, d2) =~= want);
}

/// **Law: looking up the best ask changes nothing that a later request can
/// see.** In a well-formed book with distinct ids, a request (whose new
/// order, if any, carries an id that no sell order of the book carries) gives
/// the same logs after the lookup as without it, and leaves the same live
/// orders.
pub proof fn law_best_sell_transparent(s: BookState, req: OrderbookRequest)
    requires
        book_wf(s),
        book_ids_distinct(s),
        req is NewOrder ==> !sell_side_carries(s.sells, request_id(req)),
    ensures
        ({
            let t = best_sell_outcome(s).1;
            let a = request_outcome(s, req);
            let b = request_outcome(t, req);
            &&& b.1 == a.1
            &&& live_sell_orders(b.0) == live_sell_orders(a.0)
            &&& live_buy_orders(b.0) == live_buy_orders(a.0)
        }),
{
    let t = best_sell_outcome(s).1;
    let a = request_outcome(s, req);
    let b = request_outcome(t, req);
    super::orderbook_laws::law_best_sell_price(s);
    lemma_pop_live_sell(s.sells, s.deleted);
    super::orderbook_laws::lemma_pop_live_sell_discards(s.sells, s.deleted);
    let p = pop_live_sell(s.sells, s.deleted);
    let n = s.sells.len() - p.1.len() - (if p.0 is Some { 1int } else { 0int });
    // The lookup forgets only ids of sell orders.
    assert forall|id: OrderId| !sell_side_carries(s.sells, id) implies (#[trigger] p.2.contains(id) <==> s.deleted.contains(id)) by {
        if s.deleted.contains(id) && !p.2.contains(id) {
            let q = choose|q: int| 0 <= q < n && #[trigger] s.sells.subrange(0, n)[q].order_id == id;
            assert(s.sells.subrange(0, n)[q] == s.sells[q]);
        }
    }
    assert(t.deleted == p.2 && t.buys == s.buys && t.ticker == s.ticker);
    match req {
        OrderbookRequest::CancelOrder(c) => {
            law_cancel_outcome(s, c.order_id);
            law_cancel_outcome(t, c.order_id);
            assert(live_sell_orders(b.0) =~= live_sell_orders(a.0));
            assert(live_buy_orders(b.0) =~= live_buy_orders(a.0));
        },
        OrderbookRequest::NewOrder(r) => {
            match r.direction {
                crate::types::common::Direction::Buy => {
                    lemma_match_buy_pop(s.sells, s.deleted, r, r.size, s.ticker);
                    match p.0 {
                        Some(bo) => {
                            assert(t.sells == seq![bo] + p.1);
                        },
                        None => {
                            assert(t.sells == p.1);
                        },
                    }
                    assert(b == a);
                },
                crate::types::common::Direction::Sell => {
                    // Buy ids are not sell ids, so the two books cancel the same buy orders.
                    assert forall|j: int| 0 <= j < s.buys.len() implies (s.deleted.contains(#[trigger] s.buys[j].order_id)
                        <==> p.2.contains(s.buys[j].order_id)) by {
                        if sell_side_carries(s.sells, s.buys[j].order_id) {
                            let i = choose|i: int| 0 <= i < s.sells.len() && (#[trigger] s.sells[i]).order_id == s.buys[j].order_id;
                            assert(s.sells[i].order_id != s.buys[j].order_id);
                        }
                    }
                    lemma_match_sell_agree(s.buys, s.deleted, p.2, r, r.size, s.ticker);
                    lemma_match_sell_shape(s.buys, s.deleted, r, r.size, s.ticker);
                    let m1 = match_sell(s.buys, s.deleted, r, r.size, s.ticker);
                    let m2 = match_sell(s.buys, p.2, r, r.size, s.ticker);
                    let dd = s.buys.len() - m1.0.len();
                    let o = SellOrder { order_id: r.order_id, size: m1.3, price: r.price, timestamp: r.timestamp };
                    let rests = should_rest(r, m1.3);
                    // Logs.
                    assert(b.1 == a.1);
                    // Buys: the same orders, cancelled alike.
                    assert forall|j: int| 0 <= j < m1.0.len() implies #[trigger] buy_side_carries(s.buys, m1.0[j].order_id) by {
                        if j == 0 {
                            assert(s.buys[dd].order_id == m1.0[0].order_id);
                        } else {
                            assert(m1.0[j] == s.buys[j + dd]);
                        }
                    }
                    assert forall|q: BuyOrder| live_buy_orders(a.0).contains(q) <==> live_buy_orders(b.0).contains(q) by {
                        if live_buy_orders(a.0).contains(q) {
                            let j = choose|j: int| live_buy(a.0, j) && a.0.buys[j] == q;
                            assert(buy_side_carries(s.buys, m1.0[j].order_id));
                            assert(live_buy(b.0, j));
                        }
                        if live_buy_orders(b.0).contains(q) {
                            let j = choose|j: int| live_buy(b.0, j) && b.0.buys[j] == q;
                            assert(buy_side_carries(s.buys, m1.0[j].order_id));
                            assert(live_buy(a.0, j));
                        }
                    }
                    assert(live_buy_orders(b.0) =~= live_buy_orders(a.0));
                    // Sells: the live orders of the book, and the new one alike.
                    assert forall|i: int| 0 <= i < s.sells.len() implies (m1.1.contains(#[trigger] s.sells[i].order_id) <==> s.deleted.contains(s.sells[i].order_id)) by {
                        if buy_side_carries(s.buys, s.sells[i].order_id) {
                            let j = choose|j: int| 0 <= j < s.buys.len() && (#[trigger] s.buys[j]).order_id == s.sells[i].order_id;
                            assert(s.sells[i].order_id != s.buys[j].order_id);
                        }
                    }
                    assert forall|i: int| 0 <= i < t.sells.len() implies (m2.1.contains(#[trigger] t.sells[i].order_id) <==> t.deleted.contains(t.sells[i].order_id)) by {
                        let i0 = if p.0 is Some { n + i } else { n + i };
                        if p.0 is Some {
                            if i == 0 {
                                assert(t.sells[0] == s.sells[s.sells.len() - p.1.len() - 1]);
                            } else {
                                assert(t.sells[i] == p.1[i - 1]);
                                assert(p.1[i - 1] == s.sells[s.sells.len() - p.1.len() + i - 1]);
                            }
                        } else {
                            assert(t.sells[i] == p.1[i]);
                            assert(p.1[i] == s.sells[s.sells.len() - p.1.len() + i]);
                        }
                        let id = t.sells[i].order_id;
                        assert(sell_side_carries(s.sells, id));
                        if buy_side_carries(s.buys, id) {
                            let j = choose|j: int| 0 <= j < s.buys.len() && (#[trigger] s.buys[j]).order_id == id;
                            let k = choose|k: int| 0 <= k < s.sells.len() && (#[trigger] s.sells[k]).order_id == id;
                            assert(s.sells[k].order_id != s.buys[j].order_id);
                        }
                    }
                    assert(m1.1.contains(o.order_id) <==> m2.1.contains(o.order_id)) by {
                        if !buy_side_carries(s.buys, o.order_id) {
                            assert(p.2.contains(o.order_id) <==> s.deleted.contains(o.order_id));
                        }
                    }
                    lemma_live_sells_insert(s.sells, s.deleted, m1.1, o, rests);
                    lemma_live_sells_insert(t.sells, t.deleted, m2.1, o, rests);
                    lemma_live_sells_in_eq(s);
                    lemma_live_sells_in_eq(t);
                    lemma_live_sells_in_eq(a.0);
                    lemma_live_sells_in_eq(b.0);
                },
            }
        },
    }
}

proof fn lemma_live_sells_in_eq(s: BookState)
    ensures
        live_sells_in(s.sells, s.deleted) == live_sell_orders(s),
{
    assert forall|q: SellOrder| live_sells_in(s.sells, s.deleted).contains(q) <==> live_sell_orders(s).contains(q) by {
        if live_sells_in(s.sells, s.deleted).contains(q) {
            let i = choose|i: int| 0 <= i < s.sells.len() && !s.deleted.contains(s.sells[i].order_id) && #[trigger] s.sells[i] == q;
            assert(live_sell(s, i));
        }
        if live_sell_orders(s).contains(q) {
            let i = choose|i: int| live_sell(s, i) && s.sells[i] == q;
            assert(0 <= i < s.sells.len() && !s.deleted.contains(s.sells[i].order_id) && s.sells[i] == q);
        }
    }
    assert(live_sells_in(s.sells, s.deleted) =~= live_sell_orders(s));
}

} // verus!

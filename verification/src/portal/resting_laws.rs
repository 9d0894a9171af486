//! The resting law: the resting sizes that the portal keeps for cancellation
//! and settlement are exactly the live orders of its books.

use vstd::prelude::*;
use super::order_info::{OrderRecord, resting_outcome, resting_after_event};
use super::orderbook::{
    BookState, book_wf, fill_logs, dead_log, added_log, match_buy, match_sell, new_buy_outcome, new_sell_outcome,
    should_rest, buy_slot, sell_slot, lemma_buy_slot_facts, lemma_sell_slot_facts, lemma_pop_live_buy,
    lemma_pop_live_sell, request_outcome,
};
use super::orderbook_laws::{
    book_ids_distinct, book_ids_within, lemma_match_buy_shape, lemma_match_sell_shape, live_buy, live_sell,
    live_buy_orders, live_sell_orders, law_best_buy_price, law_best_sell_price, lemma_best_price_ids,
    law_request_ids,
};
use super::laws::{books_sound, ids_up_to, lemma_fill_in_frame, lemma_best_outcomes_sound, lemma_logs_step_frame};
use super::spec::{PortalState, portal_wf, logs_step, market_fill, book_step, request_step, book_order};
use crate::types::common::{OrderId, Price, Size, Ticker};
use crate::types::orderbook::{CancelOrderRequest, NewOrderRequest, OrderbookLog, OrderbookRequest};
use crate::types::portal::{PortalNewOrderRequest, PortalRequest};
use crate::types::order::{BuyOrder, SellOrder};
use crate::utils::response_order_id;

verus! {

/// The resting sizes after one log: a response looks its order up (dropping
/// an entry with no shares left), an event updates the sizes.
pub open spec fn resting_after_log(r: Map<OrderId, Size>, log: OrderbookLog) -> Map<OrderId, Size> {
    match log {
        OrderbookLog::OrderLog(resp) => resting_outcome(r, response_order_id(resp)).1,
        OrderbookLog::EventLog(e) => resting_after_event(r, e),
    }
}

/// The resting sizes after logs, in order.
pub open spec fn resting_after_logs(r: Map<OrderId, Size>, logs: Seq<OrderbookLog>) -> Map<OrderId, Size>
    decreases logs.len(),
{
    if logs.len() == 0 {
        r
    } else {
        resting_after_log(resting_after_logs(r, logs.drop_last()), logs.last())
    }
}

/// Processing logs changes the resting sizes as `resting_after_logs` says.
pub(crate) proof fn lemma_logs_step_resting(st: PortalState, logs: Seq<OrderbookLog>)
    ensures
        logs_step(st, logs).0.resting == resting_after_logs(st.resting, logs),
    decreases logs.len(),
{
    if logs.len() > 0 {
        lemma_logs_step_resting(st, logs.drop_last());
    }
}

proof fn lemma_resting_concat(r: Map<OrderId, Size>, a: Seq<OrderbookLog>, b: Seq<OrderbookLog>)
    ensures
        resting_after_logs(r, a + b) == resting_after_logs(resting_after_logs(r, a), b),
    decreases b.len(),
{
    if b.len() == 0 {
        assert(a + b =~= a);
    } else {
        lemma_resting_concat(r, a, b.drop_last());
        assert((a + b).drop_last() =~= a + b.drop_last());
        assert((a + b).last() == b.last());
    }
}

proof fn lemma_resting_two(r: Map<OrderId, Size>, l1: OrderbookLog, l2: OrderbookLog)
    ensures
        resting_after_logs(r, seq![l1, l2]) == resting_after_log(resting_after_log(r, l1), l2),
{
    reveal_with_fuel(resting_after_logs, 3);
    let s = seq![l1, l2];
    assert(s.drop_last() =~= seq![l1]);
    assert(seq![l1].drop_last() =~= Seq::<OrderbookLog>::empty());
}

proof fn lemma_resting_one(r: Map<OrderId, Size>, l1: OrderbookLog)
    ensures
        resting_after_logs(r, seq![l1]) == resting_after_log(r, l1),
{
    reveal_with_fuel(resting_after_logs, 2);
    assert(seq![l1].drop_last() =~= Seq::<OrderbookLog>::empty());
}

/// The two logs of a fill for an order that does not rest change nothing.
proof fn lemma_fill_absent(r: Map<OrderId, Size>, id: OrderId, size: Size, price: Price, ticker: Ticker)
    requires
        !r.contains_key(id),
    ensures
        resting_after_logs(r, fill_logs(id, size, price, ticker)) == r,
{
    lemma_resting_two(r, fill_logs(id, size, price, ticker)[0], fill_logs(id, size, price, ticker)[1]);
    assert(fill_logs(id, size, price, ticker) =~= seq![fill_logs(id, size, price, ticker)[0], fill_logs(id, size, price, ticker)[1]]);
}

/// The two logs of a fill for a resting order take the filled shares off it.
proof fn lemma_fill_resting(r: Map<OrderId, Size>, id: OrderId, size: Size, price: Price, ticker: Ticker)
    requires
        r.contains_key(id),
        r[id] > 0,
        size <= r[id],
    ensures
        resting_after_logs(r, fill_logs(id, size, price, ticker)) == r.insert(id, (r[id] - size) as Size),
{
    lemma_resting_two(r, fill_logs(id, size, price, ticker)[0], fill_logs(id, size, price, ticker)[1]);
    assert(fill_logs(id, size, price, ticker) =~= seq![fill_logs(id, size, price, ticker)[0], fill_logs(id, size, price, ticker)[1]]);
}

/// A dead order with no shares left is dropped.
proof fn lemma_dead_empty(r: Map<OrderId, Size>, id: OrderId)
    requires
        r.contains_key(id),
        r[id] == 0,
    ensures
        resting_after_logs(r, seq![dead_log(id)]) == r.remove(id),
{
    lemma_resting_one(r, dead_log(id));
}

/// `r2` and `r` agree on `id`.
pub open spec fn same_at(r: Map<OrderId, Size>, r2: Map<OrderId, Size>, id: OrderId) -> bool {
    r2.contains_key(id) == r.contains_key(id) && (r.contains_key(id) ==> r2[id] == r[id])
}

/// Every live order of `sells` rests with its size.
pub open spec fn live_sells_rest(sells: Seq<SellOrder>, deleted: Set<OrderId>, r: Map<OrderId, Size>) -> bool {
    forall|j: int|
        0 <= j < sells.len() && !deleted.contains(sells[j].order_id) ==> r.contains_key(#[trigger] sells[j].order_id)
            && r[sells[j].order_id] == sells[j].size
}

/// No cancelled order of `sells` rests.
pub open spec fn cancelled_sells_gone(sells: Seq<SellOrder>, deleted: Set<OrderId>, r: Map<OrderId, Size>) -> bool {
    forall|j: int| 0 <= j < sells.len() && deleted.contains(sells[j].order_id) ==> !r.contains_key(#[trigger] sells[j].order_id)
}

/// Some live order of `sells` carries `id`.
pub open spec fn sells_live_id(sells: Seq<SellOrder>, deleted: Set<OrderId>, id: OrderId) -> bool {
    exists|j: int| 0 <= j < sells.len() && !deleted.contains(sells[j].order_id) && (#[trigger] sells[j]).order_id == id
}

/// Some order of `sells` carries `id`.
pub open spec fn sells_carry(sells: Seq<SellOrder>, id: OrderId) -> bool {
    exists|j: int| 0 <= j < sells.len() && (#[trigger] sells[j]).order_id == id
}

/// Every live order of `buys` rests with its size.
pub open spec fn live_buys_rest(buys: Seq<BuyOrder>, deleted: Set<OrderId>, r: Map<OrderId, Size>) -> bool {
    forall|i: int|
        0 <= i < buys.len() && !deleted.contains(buys[i].order_id) ==> r.contains_key(#[trigger] buys[i].order_id)
            && r[buys[i].order_id] == buys[i].size
}

/// No cancelled order of `buys` rests.
pub open spec fn cancelled_buys_gone(buys: Seq<BuyOrder>, deleted: Set<OrderId>, r: Map<OrderId, Size>) -> bool {
    forall|i: int| 0 <= i < buys.len() && deleted.contains(buys[i].order_id) ==> !r.contains_key(#[trigger] buys[i].order_id)
}

/// Some live order of `buys` carries `id`.
pub open spec fn buys_live_id(buys: Seq<BuyOrder>, deleted: Set<OrderId>, id: OrderId) -> bool {
    exists|i: int| 0 <= i < buys.len() && !deleted.contains(buys[i].order_id) && (#[trigger] buys[i]).order_id == id
}

/// Some order of `buys` carries `id`.
pub open spec fn buys_carry(buys: Seq<BuyOrder>, id: OrderId) -> bool {
    exists|i: int| 0 <= i < buys.len() && (#[trigger] buys[i]).order_id == id
}

/// Matching an incoming buy order whose id does not rest: the sizes of the
/// orders not on the sell side do not change; the live sell orders left rest
/// with their sizes; and of the sell side, only live orders left still rest.
proof fn lemma_match_buy_resting(
    sells: Seq<SellOrder>,
    deleted: Set<OrderId>,
    req: NewOrderRequest,
    left: Size,
    ticker: Ticker,
    r: Map<OrderId, Size>,
)
    requires
        forall|i: int, j: int| #![trigger sells[i], sells[j]] 0 <= i < j < sells.len() ==> sells[i].order_id != sells[j].order_id,
        forall|j: int| 0 <= j < sells.len() ==> (#[trigger] sells[j]).size > 0,
        !sells_carry(sells, req.order_id),
        !r.contains_key(req.order_id),
        live_sells_rest(sells, deleted, r),
        cancelled_sells_gone(sells, deleted, r),
    ensures
        ({
            let m = match_buy(sells, deleted, req, left, ticker);
            let r2 = resting_after_logs(r, m.2);
            &&& forall|id: OrderId| !sells_carry(sells, id) ==> #[trigger] same_at(r, r2, id)
            &&& live_sells_rest(m.0, m.1, r2)
            &&& forall|id: OrderId| #[trigger] r2.contains_key(id) && sells_carry(sells, id) ==> sells_live_id(m.0, m.1, id)
        }),
    decreases sells.len(),
{
    let m = match_buy(sells, deleted, req, left, ticker);
    let r2 = resting_after_logs(r, m.2);
    if sells.len() == 0 {
        assert forall|id: OrderId| #[trigger] r2.contains_key(id) && sells_carry(sells, id) implies sells_live_id(m.0, m.1, id) by {
            let j = choose|j: int| 0 <= j < sells.len() && (#[trigger] sells[j]).order_id == id;
        }
    } else {
        let b = sells[0];
        let rest = sells.drop_first();
        assert forall|id: OrderId| sells_carry(rest, id) implies #[trigger] sells_carry(sells, id) by {
            let j = choose|j: int| 0 <= j < rest.len() && (#[trigger] rest[j]).order_id == id;
            assert(sells[j + 1] == rest[j]);
        }
        assert forall|id: OrderId| #[trigger] sells_carry(sells, id) && id != b.order_id implies sells_carry(rest, id) by {
            let j = choose|j: int| 0 <= j < sells.len() && (#[trigger] sells[j]).order_id == id;
            assert(rest[j - 1] == sells[j]);
        }
        assert(!sells_carry(rest, b.order_id)) by {
            if sells_carry(rest, b.order_id) {
                let j = choose|j: int| 0 <= j < rest.len() && (#[trigger] rest[j]).order_id == b.order_id;
                assert(sells[j + 1] == rest[j]);
                assert(sells[0].order_id != sells[j + 1].order_id);
            }
        }
        assert(sells_carry(sells, b.order_id)) by {
            assert(sells[0].order_id == b.order_id);
        }
        assert forall|i: int, j: int| #![trigger rest[i], rest[j]] 0 <= i < j < rest.len() implies rest[i].order_id != rest[j].order_id by {
            assert(rest[i] == sells[i + 1] && rest[j] == sells[j + 1]);
        }
        assert forall|j: int| 0 <= j < rest.len() implies (#[trigger] rest[j]).size > 0 by {
            assert(rest[j] == sells[j + 1]);
        }
        assert(!sells_carry(rest, req.order_id));
        if deleted.contains(b.order_id) {
            let d2 = deleted.remove(b.order_id);
            assert(live_sells_rest(rest, d2, r)) by {
                assert forall|j: int| 0 <= j < rest.len() && !d2.contains(rest[j].order_id) implies r.contains_key(#[trigger] rest[j].order_id)
                    && r[rest[j].order_id] == rest[j].size by {
                    assert(rest[j] == sells[j + 1]);
                }
            }
            assert(cancelled_sells_gone(rest, d2, r)) by {
                assert forall|j: int| 0 <= j < rest.len() && d2.contains(rest[j].order_id) implies !r.contains_key(#[trigger] rest[j].order_id) by {
                    assert(rest[j] == sells[j + 1]);
                }
            }
            lemma_match_buy_resting(rest, d2, req, left, ticker, r);
            assert(!r.contains_key(b.order_id)) by {
                assert(deleted.contains(sells[0].order_id));
            }
            assert forall|id: OrderId| !sells_carry(sells, id) implies #[trigger] same_at(r, r2, id) by {
                assert(!sells_carry(rest, id));
            }
            assert forall|id: OrderId| #[trigger] r2.contains_key(id) && sells_carry(sells, id) implies sells_live_id(m.0, m.1, id) by {
                if id == b.order_id {
                    assert(same_at(r, r2, id));
                } else {
                    assert(sells_carry(rest, id));
                }
            }
        } else if b.price > req.price || left == 0 {
            assert(m.2 =~= Seq::<OrderbookLog>::empty());
            assert(r2 == r);
            assert forall|id: OrderId| #[trigger] r2.contains_key(id) && sells_carry(sells, id) implies sells_live_id(m.0, m.1, id) by {
                let j = choose|j: int| 0 <= j < sells.len() && (#[trigger] sells[j]).order_id == id;
                assert(!deleted.contains(sells[j].order_id));
            }
        } else if left < b.size {
            assert(r.contains_key(b.order_id) && r[b.order_id] == b.size) by {
                assert(!deleted.contains(sells[0].order_id));
            }
            let la = fill_logs(b.order_id, left, b.price, ticker);
            let lb = fill_logs(req.order_id, left, b.price, ticker);
            lemma_resting_concat(r, la, lb);
            lemma_fill_resting(r, b.order_id, left, b.price, ticker);
            let r1 = r.insert(b.order_id, (b.size - left) as Size);
            lemma_fill_absent(r1, req.order_id, left, b.price, ticker);
            assert(r2 == r1);
            assert forall|id: OrderId| !sells_carry(sells, id) implies #[trigger] same_at(r, r2, id) by {}
            assert forall|j: int| 0 <= j < m.0.len() && !m.1.contains(m.0[j].order_id) implies r2.contains_key(#[trigger] m.0[j].order_id)
                && r2[m.0[j].order_id] == m.0[j].size by {
                if j > 0 {
                    assert(m.0[j] == sells[j]);
                    assert(sells[0].order_id != sells[j].order_id);
                }
            }
            assert forall|id: OrderId| #[trigger] r2.contains_key(id) && sells_carry(sells, id) implies sells_live_id(m.0, m.1, id) by {
                let j = choose|j: int| 0 <= j < sells.len() && (#[trigger] sells[j]).order_id == id;
                if j == 0 {
                    assert(m.0[0].order_id == id);
                } else {
                    assert(m.0[j] == sells[j]);
                    assert(sells[0].order_id != sells[j].order_id);
                    assert(!deleted.contains(sells[j].order_id));
                }
            }
        } else {
            assert(r.contains_key(b.order_id) && r[b.order_id] == b.size) by {
                assert(!deleted.contains(sells[0].order_id));
            }
            let la = fill_logs(b.order_id, b.size, b.price, ticker);
            let lb = seq![dead_log(b.order_id)];
            let lc = fill_logs(req.order_id, b.size, b.price, ticker);
            let left2 = (left - b.size) as Size;
            let mr = match_buy(rest, deleted, req, left2, ticker);
            assert(m.2 == la + lb + lc + mr.2);
            lemma_resting_concat(r, la + lb + lc, mr.2);
            lemma_resting_concat(r, la + lb, lc);
            lemma_resting_concat(r, la, lb);
            lemma_fill_resting(r, b.order_id, b.size, b.price, ticker);
            let ra = r.insert(b.order_id, 0);
            lemma_dead_empty(ra, b.order_id);
            let r0 = ra.remove(b.order_id);
            assert(r0 =~= r.remove(b.order_id));
            lemma_fill_absent(r0, req.order_id, b.size, b.price, ticker);
            assert(resting_after_logs(r, la + lb + lc) == r0);
            assert(live_sells_rest(rest, deleted, r0)) by {
                assert forall|j: int| 0 <= j < rest.len() && !deleted.contains(rest[j].order_id) implies r0.contains_key(#[trigger] rest[j].order_id)
                    && r0[rest[j].order_id] == rest[j].size by {
                    assert(rest[j] == sells[j + 1]);
                    assert(sells[0].order_id != sells[j + 1].order_id);
                }
            }
            assert(cancelled_sells_gone(rest, deleted, r0)) by {
                assert forall|j: int| 0 <= j < rest.len() && deleted.contains(rest[j].order_id) implies !r0.contains_key(#[trigger] rest[j].order_id) by {
                    assert(rest[j] == sells[j + 1]);
                }
            }
            lemma_match_buy_resting(rest, deleted, req, left2, ticker, r0);
            assert forall|id: OrderId| !sells_carry(sells, id) implies #[trigger] same_at(r, r2, id) by {
                assert(!sells_carry(rest, id));
                assert(same_at(r0, r2, id));
            }
            assert forall|id: OrderId| #[trigger] r2.contains_key(id) && sells_carry(sells, id) implies sells_live_id(m.0, m.1, id) by {
                if id == b.order_id {
                    assert(same_at(r0, r2, id));
                } else {
                    assert(sells_carry(rest, id));
                }
            }
        }
    }
}

/// The buy-side counterpart of `lemma_match_buy_resting`, for an incoming
/// sell order.
proof fn lemma_match_sell_resting(
    buys: Seq<BuyOrder>,
    deleted: Set<OrderId>,
    req: NewOrderRequest,
    left: Size,
    ticker: Ticker,
    r: Map<OrderId, Size>,
)
    requires
        forall|i: int, j: int| #![trigger buys[i], buys[j]] 0 <= i < j < buys.len() ==> buys[i].order_id != buys[j].order_id,
        forall|j: int| 0 <= j < buys.len() ==> (#[trigger] buys[j]).size > 0,
        !buys_carry(buys, req.order_id),
        !r.contains_key(req.order_id),
        live_buys_rest(buys, deleted, r),
        cancelled_buys_gone(buys, deleted, r),
    ensures
        ({
            let m = match_sell(buys, deleted, req, left, ticker);
            let r2 = resting_after_logs(r, m.2);
            &&& forall|id: OrderId| !buys_carry(buys, id) ==> #[trigger] same_at(r, r2, id)
            &&& live_buys_rest(m.0, m.1, r2)
            &&& forall|id: OrderId| #[trigger] r2.contains_key(id) && buys_carry(buys, id) ==> buys_live_id(m.0, m.1, id)
        }),
    decreases buys.len(),
{
    let m = match_sell(buys, deleted, req, left, ticker);
    let r2 = resting_after_logs(r, m.2);
    if buys.len() == 0 {
        assert forall|id: OrderId| #[trigger] r2.contains_key(id) && buys_carry(buys, id) implies buys_live_id(m.0, m.1, id) by {
            let j = choose|j: int| 0 <= j < buys.len() && (#[trigger] buys[j]).order_id == id;
        }
    } else {
        let b = buys[0];
        let rest = buys.drop_first();
        assert forall|id: OrderId| buys_carry(rest, id) implies #[trigger] buys_carry(buys, id) by {
            let j = choose|j: int| 0 <= j < rest.len() && (#[trigger] rest[j]).order_id == id;
            assert(buys[j + 1] == rest[j]);
        }
        assert forall|id: OrderId| #[trigger] buys_carry(buys, id) && id != b.order_id implies buys_carry(rest, id) by {
            let j = choose|j: int| 0 <= j < buys.len() && (#[trigger] buys[j]).order_id == id;
            assert(rest[j - 1] == buys[j]);
        }
        assert(!buys_carry(rest, b.order_id)) by {
            if buys_carry(rest, b.order_id) {
                let j = choose|j: int| 0 <= j < rest.len() && (#[trigger] rest[j]).order_id == b.order_id;
                assert(buys[j + 1] == rest[j]);
                assert(buys[0].order_id != buys[j + 1].order_id);
            }
        }
        assert(buys_carry(buys, b.order_id)) by {
            assert(buys[0].order_id == b.order_id);
        }
        assert forall|i: int, j: int| #![trigger rest[i], rest[j]] 0 <= i < j < rest.len() implies rest[i].order_id != rest[j].order_id by {
            assert(rest[i] == buys[i + 1] && rest[j] == buys[j + 1]);
        }
        assert forall|j: int| 0 <= j < rest.len() implies (#[trigger] rest[j]).size > 0 by {
            assert(rest[j] == buys[j + 1]);
        }
        assert(!buys_carry(rest, req.order_id));
        if deleted.contains(b.order_id) {
            let d2 = deleted.remove(b.order_id);
            assert(live_buys_rest(rest, d2, r)) by {
                assert forall|j: int| 0 <= j < rest.len() && !d2.contains(rest[j].order_id) implies r.contains_key(#[trigger] rest[j].order_id)
                    && r[rest[j].order_id] == rest[j].size by {
                    assert(rest[j] == buys[j + 1]);
                }
            }
            assert(cancelled_buys_gone(rest, d2, r)) by {
                assert forall|j: int| 0 <= j < rest.len() && d2.contains(rest[j].order_id) implies !r.contains_key(#[trigger] rest[j].order_id) by {
                    assert(rest[j] == buys[j + 1]);
                }
            }
            lemma_match_sell_resting(rest, d2, req, left, ticker, r);
            assert(!r.contains_key(b.order_id)) by {
                assert(deleted.contains(buys[0].order_id));
            }
            assert forall|id: OrderId| !buys_carry(buys, id) implies #[trigger] same_at(r, r2, id) by {
                assert(!buys_carry(rest, id));
            }
            assert forall|id: OrderId| #[trigger] r2.contains_key(id) && buys_carry(buys, id) implies buys_live_id(m.0, m.1, id) by {
                if id == b.order_id {
                    assert(same_at(r, r2, id));
                } else {
                    assert(buys_carry(rest, id));
                }
            }
        } else if b.price < req.price || left == 0 {
            assert(m.2 =~= Seq::<OrderbookLog>::empty());
            assert(r2 == r);
            assert forall|id: OrderId| #[trigger] r2.contains_key(id) && buys_carry(buys, id) implies buys_live_id(m.0, m.1, id) by {
                let j = choose|j: int| 0 <= j < buys.len() && (#[trigger] buys[j]).order_id == id;
                assert(!deleted.contains(buys[j].order_id));
            }
        } else if left < b.size {
            assert(r.contains_key(b.order_id) && r[b.order_id] == b.size) by {
                assert(!deleted.contains(buys[0].order_id));
            }
            let la = fill_logs(b.order_id, left, b.price, ticker);
            let lb = fill_logs(req.order_id, left, b.price, ticker);
            lemma_resting_concat(r, la, lb);
            lemma_fill_resting(r, b.order_id, left, b.price, ticker);
            let r1 = r.insert(b.order_id, (b.size - left) as Size);
            lemma_fill_absent(r1, req.order_id, left, b.price, ticker);
            assert(r2 == r1);
            assert forall|id: OrderId| !buys_carry(buys, id) implies #[trigger] same_at(r, r2, id) by {}
            assert forall|j: int| 0 <= j < m.0.len() && !m.1.contains(m.0[j].order_id) implies r2.contains_key(#[trigger] m.0[j].order_id)
                && r2[m.0[j].order_id] == m.0[j].size by {
                if j > 0 {
                    assert(m.0[j] == buys[j]);
                    assert(buys[0].order_id != buys[j].order_id);
                }
            }
            assert forall|id: OrderId| #[trigger] r2.contains_key(id) && buys_carry(buys, id) implies buys_live_id(m.0, m.1, id) by {
                let j = choose|j: int| 0 <= j < buys.len() && (#[trigger] buys[j]).order_id == id;
                if j == 0 {
                    assert(m.0[0].order_id == id);
                } else {
                    assert(m.0[j] == buys[j]);
                    assert(buys[0].order_id != buys[j].order_id);
                    assert(!deleted.contains(buys[j].order_id));
                }
            }
        } else {
            assert(r.contains_key(b.order_id) && r[b.order_id] == b.size) by {
                assert(!deleted.contains(buys[0].order_id));
            }
            let la = fill_logs(b.order_id, b.size, b.price, ticker);
            let lb = seq![dead_log(b.order_id)];
            let lc = fill_logs(req.order_id, b.size, b.price, ticker);
            let left2 = (left - b.size) as Size;
            let mr = match_sell(rest, deleted, req, left2, ticker);
            assert(m.2 == la + lb + lc + mr.2);
            lemma_resting_concat(r, la + lb + lc, mr.2);
            lemma_resting_concat(r, la + lb, lc);
            lemma_resting_concat(r, la, lb);
            lemma_fill_resting(r, b.order_id, b.size, b.price, ticker);
            let ra = r.insert(b.order_id, 0);
            lemma_dead_empty(ra, b.order_id);
            let r0 = ra.remove(b.order_id);
            assert(r0 =~= r.remove(b.order_id));
            lemma_fill_absent(r0, req.order_id, b.size, b.price, ticker);
            assert(resting_after_logs(r, la + lb + lc) == r0);
            assert(live_buys_rest(rest, deleted, r0)) by {
                assert forall|j: int| 0 <= j < rest.len() && !deleted.contains(rest[j].order_id) implies r0.contains_key(#[trigger] rest[j].order_id)
                    && r0[rest[j].order_id] == rest[j].size by {
                    assert(rest[j] == buys[j + 1]);
                    assert(buys[0].order_id != buys[j + 1].order_id);
                }
            }
            assert(cancelled_buys_gone(rest, deleted, r0)) by {
                assert forall|j: int| 0 <= j < rest.len() && deleted.contains(rest[j].order_id) implies !r0.contains_key(#[trigger] rest[j].order_id) by {
                    assert(rest[j] == buys[j + 1]);
                }
            }
            lemma_match_sell_resting(rest, deleted, req, left2, ticker, r0);
            assert forall|id: OrderId| !buys_carry(buys, id) implies #[trigger] same_at(r, r2, id) by {
                assert(!buys_carry(rest, id));
                assert(same_at(r0, r2, id));
            }
            assert forall|id: OrderId| #[trigger] r2.contains_key(id) && buys_carry(buys, id) implies buys_live_id(m.0, m.1, id) by {
                if id == b.order_id {
                    assert(same_at(r0, r2, id));
                } else {
                    assert(buys_carry(rest, id));
                }
            }
        }
    }
}

/// Every live order of the book rests with its size, and no cancelled order
/// of the book rests.
pub open spec fn book_rests(s: BookState, r: Map<OrderId, Size>) -> bool {
    &&& live_buys_rest(s.buys, s.deleted, r)
    &&& live_sells_rest(s.sells, s.deleted, r)
    &&& cancelled_buys_gone(s.buys, s.deleted, r)
    &&& cancelled_sells_gone(s.sells, s.deleted, r)
}

/// Some order of the book carries `id`.
pub open spec fn book_carries(s: BookState, id: OrderId) -> bool {
    buys_carry(s.buys, id) || sells_carry(s.sells, id)
}

/// Some live order of the book carries `id`.
pub open spec fn book_live_id(s: BookState, id: OrderId) -> bool {
    buys_live_id(s.buys, s.deleted, id) || sells_live_id(s.sells, s.deleted, id)
}

proof fn lemma_resting_push(r: Map<OrderId, Size>, a: Seq<OrderbookLog>, l: OrderbookLog)
    ensures
        resting_after_logs(r, a.push(l)) == resting_after_log(resting_after_logs(r, a), l),
{
    assert(a.push(l).drop_last() =~= a);
}

/// A new buy order whose id is fresh and not resting: afterwards the sizes
/// of orders the book does not carry are unchanged, every live order of the
/// book rests with its size, and an order of the book (or the new one) rests
/// only if it is live.
proof fn lemma_new_buy_resting(s: BookState, req: NewOrderRequest, r: Map<OrderId, Size>)
    requires
        book_wf(s),
        book_ids_distinct(s),
        !book_carries(s, req.order_id),
        !s.deleted.contains(req.order_id),
        !r.contains_key(req.order_id),
        book_rests(s, r),
    ensures
        ({
            let (s2, logs) = new_buy_outcome(s, req);
            let r2 = resting_after_logs(r, logs);
            &&& s2.deleted.subset_of(s.deleted)
            &&& forall|id: OrderId| !book_carries(s, id) && id != req.order_id ==> #[trigger] same_at(r, r2, id)
            &&& live_buys_rest(s2.buys, s2.deleted, r2)
            &&& live_sells_rest(s2.sells, s2.deleted, r2)
            &&& forall|id: OrderId| #[trigger] r2.contains_key(id) && (book_carries(s, id) || id == req.order_id) ==> book_live_id(s2, id)
        }),
{
    let m = match_buy(s.sells, s.deleted, req, req.size, s.ticker);
    lemma_match_buy_shape(s.sells, s.deleted, req, req.size, s.ticker);
    assert(!sells_carry(s.sells, req.order_id));
    lemma_match_buy_resting(s.sells, s.deleted, req, req.size, s.ticker, r);
    let rm = resting_after_logs(r, m.2);
    let d = s.sells.len() - m.0.len();
    // Every sell order left carries the id of a sell order of the book.
    assert forall|j: int| 0 <= j < m.0.len() implies sells_carry(s.sells, #[trigger] m.0[j].order_id) by {
        if j == 0 {
            assert(s.sells[d].order_id == m.0[0].order_id);
        } else {
            assert(m.0[j] == s.sells[j + d]);
        }
    }
    // A buy order cancelled in the book stays cancelled.
    assert forall|i: int| 0 <= i < s.buys.len() && s.deleted.contains(s.buys[i].order_id) implies m.1.contains(#[trigger] s.buys[i].order_id) by {
        let x = s.buys[i].order_id;
        if !m.1.contains(x) {
            let k = choose|k: int| 0 <= k < d && #[trigger] s.sells.subrange(0, d)[k].order_id == x;
            assert(s.sells.subrange(0, d)[k] == s.sells[k]);
            assert(s.buys[i].order_id != s.sells[k].order_id);
        }
    }
    assert(!m.1.contains(req.order_id));
    assert(same_at(r, rm, req.order_id));
    // Buy ids are not sell ids.
    assert forall|id: OrderId| buys_carry(s.buys, id) implies !#[trigger] sells_carry(s.sells, id) by {
        let i = choose|i: int| 0 <= i < s.buys.len() && (#[trigger] s.buys[i]).order_id == id;
        if sells_carry(s.sells, id) {
            let j = choose|j: int| 0 <= j < s.sells.len() && (#[trigger] s.sells[j]).order_id == id;
            assert(s.buys[i].order_id != s.sells[j].order_id);
        }
    }
    if should_rest(req, m.3) {
        let o = BuyOrder { order_id: req.order_id, size: m.3, price: req.price, timestamp: req.timestamp };
        let (s2, logs) = new_buy_outcome(s, req);
        lemma_resting_push(r, m.2, added_log(req, m.3, s.ticker));
        let r2 = rm.insert(req.order_id, m.3);
        assert(resting_after_logs(r, logs) == r2);
        lemma_buy_slot_facts(s.buys, o);
        let k = buy_slot(s.buys, o) as int;
        assert(s2.buys == s.buys.insert(k, o));
        assert forall|id: OrderId| !book_carries(s, id) && id != req.order_id implies #[trigger] same_at(r, r2, id) by {
            assert(same_at(r, rm, id));
        }
        assert forall|i: int| 0 <= i < s2.buys.len() && !s2.deleted.contains(s2.buys[i].order_id) implies r2.contains_key(#[trigger] s2.buys[i].order_id)
            && r2[s2.buys[i].order_id] == s2.buys[i].size by {
            if i != k {
                let i0 = if i < k { i } else { i - 1 };
                assert(s2.buys[i] == s.buys[i0]);
                let id = s.buys[i0].order_id;
                assert(buys_carry(s.buys, id));
                assert(!sells_carry(s.sells, id));
                assert(!s.deleted.contains(id));
                assert(same_at(r, rm, id));
            }
        }
        assert forall|j: int| 0 <= j < s2.sells.len() && !s2.deleted.contains(s2.sells[j].order_id) implies r2.contains_key(#[trigger] s2.sells[j].order_id)
            && r2[s2.sells[j].order_id] == s2.sells[j].size by {
            assert(sells_carry(s.sells, m.0[j].order_id));
        }
        assert forall|id: OrderId| #[trigger] r2.contains_key(id) && (book_carries(s, id) || id == req.order_id) implies book_live_id(s2, id) by {
            if id == req.order_id {
                assert(s2.buys[k] == o);
            } else if sells_carry(s.sells, id) {
                assert(rm.contains_key(id));
                assert(sells_live_id(m.0, m.1, id));
            } else {
                let i0 = choose|i0: int| 0 <= i0 < s.buys.len() && (#[trigger] s.buys[i0]).order_id == id;
                assert(same_at(r, rm, id));
                assert(!s.deleted.contains(s.buys[i0].order_id));
                let i = if i0 < k { i0 } else { i0 + 1 };
                assert(s2.buys[i] == s.buys[i0]);
            }
        }
    } else {
        let (s2, logs) = new_buy_outcome(s, req);
        lemma_resting_push(r, m.2, dead_log(req.order_id));
        assert(resting_after_logs(r, logs) == rm);
        assert forall|i: int| 0 <= i < s2.buys.len() && !s2.deleted.contains(s2.buys[i].order_id) implies rm.contains_key(#[trigger] s2.buys[i].order_id)
            && rm[s2.buys[i].order_id] == s2.buys[i].size by {
            let id = s.buys[i].order_id;
            assert(buys_carry(s.buys, id));
            assert(!sells_carry(s.sells, id));
            assert(same_at(r, rm, id));
        }
        assert forall|id: OrderId| #[trigger] rm.contains_key(id) && (book_carries(s, id) || id == req.order_id) implies book_live_id(s2, id) by {
            if sells_carry(s.sells, id) {
                assert(sells_live_id(m.0, m.1, id));
            } else if id != req.order_id {
                let i0 = choose|i0: int| 0 <= i0 < s.buys.len() && (#[trigger] s.buys[i0]).order_id == id;
                assert(same_at(r, rm, id));
                assert(!s.deleted.contains(s.buys[i0].order_id));
            }
        }
    }
}


/// The counterpart of `lemma_new_buy_resting` for a new sell order.
proof fn lemma_new_sell_resting(s: BookState, req: NewOrderRequest, r: Map<OrderId, Size>)
    requires
        book_wf(s),
        book_ids_distinct(s),
        !book_carries(s, req.order_id),
        !s.deleted.contains(req.order_id),
        !r.contains_key(req.order_id),
        book_rests(s, r),
    ensures
        ({
            let (s2, logs) = new_sell_outcome(s, req);
            let r2 = resting_after_logs(r, logs);
            &&& s2.deleted.subset_of(s.deleted)
            &&& forall|id: OrderId| !book_carries(s, id) && id != req.order_id ==> #[trigger] same_at(r, r2, id)
            &&& live_sells_rest(s2.sells, s2.deleted, r2)
            &&& live_buys_rest(s2.buys, s2.deleted, r2)
            &&& forall|id: OrderId| #[trigger] r2.contains_key(id) && (book_carries(s, id) || id == req.order_id) ==> book_live_id(s2, id)
        }),
{
    let m = match_sell(s.buys, s.deleted, req, req.size, s.ticker);
    lemma_match_sell_shape(s.buys, s.deleted, req, req.size, s.ticker);
    assert(!buys_carry(s.buys, req.order_id));
    lemma_match_sell_resting(s.buys, s.deleted, req, req.size, s.ticker, r);
    let rm = resting_after_logs(r, m.2);
    let d = s.buys.len() - m.0.len();
    // Every buy order left carries the id of a buy order of the book.
    assert forall|j: int| 0 <= j < m.0.len() implies buys_carry(s.buys, #[trigger] m.0[j].order_id) by {
        if j == 0 {
            assert(s.buys[d].order_id == m.0[0].order_id);
        } else {
            assert(m.0[j] == s.buys[j + d]);
        }
    }
    // A sell order cancelled in the book stays cancelled.
    assert forall|i: int| 0 <= i < s.sells.len() && s.deleted.contains(s.sells[i].order_id) implies m.1.contains(#[trigger] s.sells[i].order_id) by {
        let x = s.sells[i].order_id;
        if !m.1.contains(x) {
            let k = choose|k: int| 0 <= k < d && #[trigger] s.buys.subrange(0, d)[k].order_id == x;
            assert(s.buys.subrange(0, d)[k] == s.buys[k]);
            assert(s.sells[i].order_id != s.buys[k].order_id);
        }
    }
    assert(!m.1.contains(req.order_id));
    assert(same_at(r, rm, req.order_id));
    // Sell ids are not buy ids.
    assert forall|id: OrderId| sells_carry(s.sells, id) implies !#[trigger] buys_carry(s.buys, id) by {
        let i = choose|i: int| 0 <= i < s.sells.len() && (#[trigger] s.sells[i]).order_id == id;
        if buys_carry(s.buys, id) {
            let j = choose|j: int| 0 <= j < s.buys.len() && (#[trigger] s.buys[j]).order_id == id;
            assert(s.sells[i].order_id != s.buys[j].order_id);
        }
    }
    if should_rest(req, m.3) {
        let o = SellOrder { order_id: req.order_id, size: m.3, price: req.price, timestamp: req.timestamp };
        let (s2, logs) = new_sell_outcome(s, req);
        lemma_resting_push(r, m.2, added_log(req, m.3, s.ticker));
        let r2 = rm.insert(req.order_id, m.3);
        assert(resting_after_logs(r, logs) == r2);
        lemma_sell_slot_facts(s.sells, o);
        let k = sell_slot(s.sells, o) as int;
        assert(s2.sells == s.sells.insert(k, o));
        assert forall|id: OrderId| !book_carries(s, id) && id != req.order_id implies #[trigger] same_at(r, r2, id) by {
            assert(same_at(r, rm, id));
        }
        assert forall|i: int| 0 <= i < s2.sells.len() && !s2.deleted.contains(s2.sells[i].order_id) implies r2.contains_key(#[trigger] s2.sells[i].order_id)
            && r2[s2.sells[i].order_id] == s2.sells[i].size by {
            if i != k {
                let i0 = if i < k { i } else { i - 1 };
                assert(s2.sells[i] == s.sells[i0]);
                let id = s.sells[i0].order_id;
                assert(sells_carry(s.sells, id));
                assert(!buys_carry(s.buys, id));
                assert(!s.deleted.contains(id));
                assert(same_at(r, rm, id));
            }
        }
        assert forall|j: int| 0 <= j < s2.buys.len() && !s2.deleted.contains(s2.buys[j].order_id) implies r2.contains_key(#[trigger] s2.buys[j].order_id)
            && r2[s2.buys[j].order_id] == s2.buys[j].size by {
            assert(buys_carry(s.buys, m.0[j].order_id));
        }
        assert forall|id: OrderId| #[trigger] r2.contains_key(id) && (book_carries(s, id) || id == req.order_id) implies book_live_id(s2, id) by {
            if id == req.order_id {
                assert(s2.sells[k] == o);
            } else if buys_carry(s.buys, id) {
                assert(rm.contains_key(id));
                assert(buys_live_id(m.0, m.1, id));
            } else {
                let i0 = choose|i0: int| 0 <= i0 < s.sells.len() && (#[trigger] s.sells[i0]).order_id == id;
                assert(same_at(r, rm, id));
                assert(!s.deleted.contains(s.sells[i0].order_id));
                let i = if i0 < k { i0 } else { i0 + 1 };
                assert(s2.sells[i] == s.sells[i0]);
            }
        }
    } else {
        let (s2, logs) = new_sell_outcome(s, req);
        lemma_resting_push(r, m.2, dead_log(req.order_id));
        assert(resting_after_logs(r, logs) == rm);
        assert forall|i: int| 0 <= i < s2.sells.len() && !s2.deleted.contains(s2.sells[i].order_id) implies rm.contains_key(#[trigger] s2.sells[i].order_id)
            && rm[s2.sells[i].order_id] == s2.sells[i].size by {
            let id = s.sells[i].order_id;
            assert(sells_carry(s.sells, id));
            assert(!buys_carry(s.buys, id));
            assert(same_at(r, rm, id));
        }
        assert forall|id: OrderId| #[trigger] rm.contains_key(id) && (book_carries(s, id) || id == req.order_id) implies book_live_id(s2, id) by {
            if buys_carry(s.buys, id) {
                assert(buys_live_id(m.0, m.1, id));
            } else if id != req.order_id {
                let i0 = choose|i0: int| 0 <= i0 < s.sells.len() && (#[trigger] s.sells[i0]).order_id == id;
                assert(same_at(r, rm, id));
                assert(!s.deleted.contains(s.sells[i0].order_id));
            }
        }
    }
}

/// The ids of the accepted orders of ticker `t`.
pub open spec fn ticker_ids(orders: Map<OrderId, OrderRecord>, t: Seq<char>) -> Set<OrderId> {
    Set::new(|id: OrderId| orders.contains_key(id) && orders[id].ticker@ == t)
}

/// The resting sizes that the portal keeps are the live orders of its books:
/// every book holds only orders of its own ticker and marks only ids already
/// given out as cancelled; every live order rests with its size; and every
/// resting order is a live order of the book of its ticker.
pub open spec fn resting_tracks_books(st: PortalState) -> bool {
    &&& forall|t: Seq<char>| #[trigger] st.books.contains_key(t) ==> book_ids_within(st.books[t], ticker_ids(st.orders, t))
    &&& forall|t: Seq<char>| #[trigger] st.books.contains_key(t) ==> st.books[t].deleted.subset_of(ids_up_to(st.last_order_id))
    &&& forall|t: Seq<char>| #[trigger] st.books.contains_key(t) ==> live_buys_rest(st.books[t].buys, st.books[t].deleted, st.resting)
    &&& forall|t: Seq<char>| #[trigger] st.books.contains_key(t) ==> live_sells_rest(st.books[t].sells, st.books[t].deleted, st.resting)
    &&& forall|id: OrderId| #[trigger] st.resting.contains_key(id) ==> {
        &&& st.orders.contains_key(id)
        &&& st.books.contains_key(st.orders[id].ticker@)
        &&& book_live_id(st.books[st.orders[id].ticker@], id)
    }
}

/// In a portal whose resting sizes track its books, no cancelled order of a
/// book rests, every resting size is positive, and every resting id has
/// been given out.
pub(crate) proof fn lemma_tracking_facts(st: PortalState)
    requires
        portal_wf(st),
        books_sound(st),
        resting_tracks_books(st),
    ensures
        forall|t: Seq<char>| #[trigger] st.books.contains_key(t) ==> book_rests(st.books[t], st.resting),
        forall|id: OrderId| #[trigger] st.resting.contains_key(id) ==> st.resting[id] > 0 && id <= st.last_order_id,
{
    assert forall|t: Seq<char>| #[trigger] st.books.contains_key(t) implies book_rests(st.books[t], st.resting) by {
        let s = st.books[t];
        assert forall|i: int| 0 <= i < s.buys.len() && s.deleted.contains(s.buys[i].order_id) implies !st.resting.contains_key(#[trigger] s.buys[i].order_id) by {
            let id = s.buys[i].order_id;
            if st.resting.contains_key(id) {
                assert(ticker_ids(st.orders, t).contains(s.buys[i].order_id));
                let u = st.orders[id].ticker@;
                assert(u == t);
                if buys_live_id(s.buys, s.deleted, id) {
                    let k = choose|k: int| 0 <= k < s.buys.len() && !s.deleted.contains(s.buys[k].order_id) && (#[trigger] s.buys[k]).order_id == id;
                    assert(k != i);
                    assert(book_ids_distinct(s));
                    if k < i {
                        assert(s.buys[k].order_id != s.buys[i].order_id);
                    } else {
                        assert(s.buys[i].order_id != s.buys[k].order_id);
                    }
                } else {
                    let k = choose|k: int| 0 <= k < s.sells.len() && !s.deleted.contains(s.sells[k].order_id) && (#[trigger] s.sells[k]).order_id == id;
                    assert(s.buys[i].order_id != s.sells[k].order_id);
                }
            }
        }
        assert forall|j: int| 0 <= j < s.sells.len() && s.deleted.contains(s.sells[j].order_id) implies !st.resting.contains_key(#[trigger] s.sells[j].order_id) by {
            let id = s.sells[j].order_id;
            if st.resting.contains_key(id) {
                assert(ticker_ids(st.orders, t).contains(s.sells[j].order_id));
                let u = st.orders[id].ticker@;
                assert(u == t);
                if sells_live_id(s.sells, s.deleted, id) {
                    let k = choose|k: int| 0 <= k < s.sells.len() && !s.deleted.contains(s.sells[k].order_id) && (#[trigger] s.sells[k]).order_id == id;
                    assert(k != j);
                    if k < j {
                        assert(s.sells[k].order_id != s.sells[j].order_id);
                    } else {
                        assert(s.sells[j].order_id != s.sells[k].order_id);
                    }
                } else {
                    let k = choose|k: int| 0 <= k < s.buys.len() && !s.deleted.contains(s.buys[k].order_id) && (#[trigger] s.buys[k]).order_id == id;
                    assert(s.buys[k].order_id != s.sells[j].order_id);
                }
            }
        }
    }
    assert forall|id: OrderId| #[trigger] st.resting.contains_key(id) implies st.resting[id] > 0 && id <= st.last_order_id by {
        let t = st.orders[id].ticker@;
        let s = st.books[t];
        assert(st.books.contains_key(t));
        if buys_live_id(s.buys, s.deleted, id) {
            let k = choose|k: int| 0 <= k < s.buys.len() && !s.deleted.contains(s.buys[k].order_id) && (#[trigger] s.buys[k]).order_id == id;
            assert(s.buys[k].size > 0);
            assert(ids_up_to(st.last_order_id).contains(s.buys[k].order_id));
        } else {
            let k = choose|k: int| 0 <= k < s.sells.len() && !s.deleted.contains(s.sells[k].order_id) && (#[trigger] s.sells[k]).order_id == id;
            assert(s.sells[k].size > 0);
            assert(ids_up_to(st.last_order_id).contains(s.sells[k].order_id));
        }
    }
}

/// A book with the same live orders as `s` keeps their resting sizes and
/// their liveness.
proof fn lemma_same_live_orders(s: BookState, tb: BookState, r: Map<OrderId, Size>)
    requires
        live_buy_orders(tb) == live_buy_orders(s),
        live_sell_orders(tb) == live_sell_orders(s),
        live_buys_rest(s.buys, s.deleted, r),
        live_sells_rest(s.sells, s.deleted, r),
    ensures
        live_buys_rest(tb.buys, tb.deleted, r),
        live_sells_rest(tb.sells, tb.deleted, r),
        forall|id: OrderId| #[trigger] book_live_id(s, id) ==> book_live_id(tb, id),
{
    assert forall|i: int| 0 <= i < tb.buys.len() && !tb.deleted.contains(tb.buys[i].order_id) implies r.contains_key(#[trigger] tb.buys[i].order_id)
        && r[tb.buys[i].order_id] == tb.buys[i].size by {
        assert(live_buy(tb, i));
        assert(live_buy_orders(tb).contains(tb.buys[i]));
        let i0 = choose|i0: int| live_buy(s, i0) && s.buys[i0] == tb.buys[i];
        assert(r.contains_key(s.buys[i0].order_id));
    }
    assert forall|j: int| 0 <= j < tb.sells.len() && !tb.deleted.contains(tb.sells[j].order_id) implies r.contains_key(#[trigger] tb.sells[j].order_id)
        && r[tb.sells[j].order_id] == tb.sells[j].size by {
        assert(live_sell(tb, j));
        assert(live_sell_orders(tb).contains(tb.sells[j]));
        let j0 = choose|j0: int| live_sell(s, j0) && s.sells[j0] == tb.sells[j];
        assert(r.contains_key(s.sells[j0].order_id));
    }
    assert forall|id: OrderId| #[trigger] book_live_id(s, id) implies book_live_id(tb, id) by {
        if buys_live_id(s.buys, s.deleted, id) {
            let i0 = choose|i0: int| 0 <= i0 < s.buys.len() && !s.deleted.contains(s.buys[i0].order_id) && (#[trigger] s.buys[i0]).order_id == id;
            assert(live_buy(s, i0));
            assert(live_buy_orders(s).contains(s.buys[i0]));
            let i = choose|i: int| live_buy(tb, i) && tb.buys[i] == s.buys[i0];
            assert(tb.buys[i].order_id == id);
        } else {
            let j0 = choose|j0: int| 0 <= j0 < s.sells.len() && !s.deleted.contains(s.sells[j0].order_id) && (#[trigger] s.sells[j0]).order_id == id;
            assert(live_sell(s, j0));
            assert(live_sell_orders(s).contains(s.sells[j0]));
            let j = choose|j: int| live_sell(tb, j) && tb.sells[j] == s.sells[j0];
            assert(tb.sells[j].order_id == id);
        }
    }
}

/// Looking up the price that a new order takes keeps the resting sizes, and
/// they still track the books.
proof fn lemma_fill_in_tracks(st: PortalState, req: PortalNewOrderRequest)
    requires
        portal_wf(st),
        books_sound(st),
        resting_tracks_books(st),
    ensures
        market_fill(st, req).0.resting == st.resting,
        resting_tracks_books(market_fill(st, req).0),
{
    let st1 = market_fill(st, req).0;
    lemma_fill_in_frame(st, req);
    let t = req.ticker@;
    if st.books.contains_key(t) {
        let s = st.books[t];
        let tb = st1.books[t];
        law_best_buy_price(s);
        law_best_sell_price(s);
        lemma_pop_live_buy(s.buys, s.deleted);
        lemma_pop_live_sell(s.sells, s.deleted);
        lemma_best_price_ids(s, ticker_ids(st.orders, t));
        lemma_same_live_orders(s, tb, st.resting);
        assert(tb.deleted.subset_of(s.deleted));
        assert forall|u: Seq<char>| #[trigger] st1.books.contains_key(u) implies {
            &&& book_ids_within(st1.books[u], ticker_ids(st1.orders, u))
            &&& st1.books[u].deleted.subset_of(ids_up_to(st1.last_order_id))
            &&& live_buys_rest(st1.books[u].buys, st1.books[u].deleted, st1.resting)
            &&& live_sells_rest(st1.books[u].sells, st1.books[u].deleted, st1.resting)
        } by {
            assert(st.books.contains_key(u));
        }
        assert forall|id: OrderId| #[trigger] st1.resting.contains_key(id) implies {
            &&& st1.orders.contains_key(id)
            &&& st1.books.contains_key(st1.orders[id].ticker@)
            &&& book_live_id(st1.books[st1.orders[id].ticker@], id)
        } by {
            assert(st.resting.contains_key(id));
        }
    }
}

/// Handing a new order with the next id to the book of its ticker, and
/// processing the book's logs, keeps the resting sizes tracking the books.
proof fn lemma_new_order_tracks(st2: PortalState, t: Seq<char>, req: NewOrderRequest)
    requires
        forall|u: Seq<char>| #[trigger] st2.books.contains_key(u) ==> book_wf(st2.books[u]) && book_ids_distinct(st2.books[u]),
        forall|u: Seq<char>| #[trigger] st2.books.contains_key(u) ==> book_ids_within(st2.books[u], ids_up_to((st2.last_order_id - 1) as OrderId)),
        forall|u: Seq<char>| #[trigger] st2.books.contains_key(u) ==> st2.books[u].deleted.subset_of(ids_up_to((st2.last_order_id - 1) as OrderId)),
        forall|id: OrderId| #[trigger] st2.resting.contains_key(id) ==> id < st2.last_order_id,
        forall|u: Seq<char>| #[trigger] st2.books.contains_key(u) ==> book_rests(st2.books[u], st2.resting),
        resting_tracks_books(st2),
        st2.last_order_id > 0,
        req.order_id == st2.last_order_id,
        st2.orders.contains_key(req.order_id),
        st2.orders[req.order_id].ticker@ == t,
    ensures
        ({
            let b = book_step(st2, t, OrderbookRequest::NewOrder(req));
            resting_tracks_books(logs_step(b.0, b.1).0)
        }),
{
    let breq = OrderbookRequest::NewOrder(req);
    let b = book_step(st2, t, breq);
    lemma_logs_step_frame(b.0, b.1);
    lemma_logs_step_resting(b.0, b.1);
    let l = logs_step(b.0, b.1).0;
    let last = st2.last_order_id;
    let r = st2.resting;
    if st2.books.contains_key(t) {
        let s = st2.books[t];
        let (s2, logs) = request_outcome(s, breq);
        let r2 = resting_after_logs(r, logs);
        assert(!book_carries(s, req.order_id)) by {
            if buys_carry(s.buys, req.order_id) {
                let i = choose|i: int| 0 <= i < s.buys.len() && (#[trigger] s.buys[i]).order_id == req.order_id;
                assert(ids_up_to((last - 1) as OrderId).contains(s.buys[i].order_id));
            }
            if sells_carry(s.sells, req.order_id) {
                let j = choose|j: int| 0 <= j < s.sells.len() && (#[trigger] s.sells[j]).order_id == req.order_id;
                assert(ids_up_to((last - 1) as OrderId).contains(s.sells[j].order_id));
            }
        }
        assert(!s.deleted.contains(req.order_id)) by {
            assert(!ids_up_to((last - 1) as OrderId).contains(req.order_id));
        }
        match req.direction {
            crate::types::common::Direction::Buy => lemma_new_buy_resting(s, req, r),
            crate::types::common::Direction::Sell => lemma_new_sell_resting(s, req, r),
        }
        assert(ticker_ids(st2.orders, t).contains(req.order_id));
        law_request_ids(s, breq, ticker_ids(st2.orders, t));
        assert(l.resting == r2);
        assert(l.books == st2.books.insert(t, s2));
        assert forall|u: Seq<char>| #[trigger] l.books.contains_key(u) implies {
            &&& book_ids_within(l.books[u], ticker_ids(l.orders, u))
            &&& l.books[u].deleted.subset_of(ids_up_to(l.last_order_id))
            &&& live_buys_rest(l.books[u].buys, l.books[u].deleted, l.resting)
            &&& live_sells_rest(l.books[u].sells, l.books[u].deleted, l.resting)
        } by {
            assert(st2.books.contains_key(u));
            if u != t {
                let su = st2.books[u];
                // The orders of another book are not orders of this one.
                assert forall|id: OrderId| ticker_ids(st2.orders, u).contains(id) && id <= last - 1 implies #[trigger] same_at(r, r2, id) by {
                    if book_carries(s, id) {
                        if buys_carry(s.buys, id) {
                            let i = choose|i: int| 0 <= i < s.buys.len() && (#[trigger] s.buys[i]).order_id == id;
                            assert(ticker_ids(st2.orders, t).contains(s.buys[i].order_id));
                        } else {
                            let j = choose|j: int| 0 <= j < s.sells.len() && (#[trigger] s.sells[j]).order_id == id;
                            assert(ticker_ids(st2.orders, t).contains(s.sells[j].order_id));
                        }
                    }
                }
                assert forall|i: int| 0 <= i < su.buys.len() && !su.deleted.contains(su.buys[i].order_id) implies r2.contains_key(#[trigger] su.buys[i].order_id)
                    && r2[su.buys[i].order_id] == su.buys[i].size by {
                    assert(ticker_ids(st2.orders, u).contains(su.buys[i].order_id));
                    assert(ids_up_to((last - 1) as OrderId).contains(su.buys[i].order_id));
                    assert(same_at(r, r2, su.buys[i].order_id));
                }
                assert forall|j: int| 0 <= j < su.sells.len() && !su.deleted.contains(su.sells[j].order_id) implies r2.contains_key(#[trigger] su.sells[j].order_id)
                    && r2[su.sells[j].order_id] == su.sells[j].size by {
                    assert(ticker_ids(st2.orders, u).contains(su.sells[j].order_id));
                    assert(ids_up_to((last - 1) as OrderId).contains(su.sells[j].order_id));
                    assert(same_at(r, r2, su.sells[j].order_id));
                }
            }
        }
        assert forall|id: OrderId| #[trigger] l.resting.contains_key(id) implies {
            &&& l.orders.contains_key(id)
            &&& l.books.contains_key(l.orders[id].ticker@)
            &&& book_live_id(l.books[l.orders[id].ticker@], id)
        } by {
            if book_carries(s, id) || id == req.order_id {
                if id != req.order_id {
                    if buys_carry(s.buys, id) {
                        let i = choose|i: int| 0 <= i < s.buys.len() && (#[trigger] s.buys[i]).order_id == id;
                        assert(ticker_ids(st2.orders, t).contains(s.buys[i].order_id));
                    } else {
                        let j = choose|j: int| 0 <= j < s.sells.len() && (#[trigger] s.sells[j]).order_id == id;
                        assert(ticker_ids(st2.orders, t).contains(s.sells[j].order_id));
                    }
                }
            } else {
                assert(same_at(r, r2, id));
                assert(r.contains_key(id));
                let u = st2.orders[id].ticker@;
                if u == t {
                    assert(book_live_id(s, id));
                    if buys_live_id(s.buys, s.deleted, id) {
                        let i = choose|i: int| 0 <= i < s.buys.len() && !s.deleted.contains(s.buys[i].order_id) && (#[trigger] s.buys[i]).order_id == id;
                        assert(buys_carry(s.buys, id));
                    } else {
                        let j = choose|j: int| 0 <= j < s.sells.len() && !s.deleted.contains(s.sells[j].order_id) && (#[trigger] s.sells[j]).order_id == id;
                        assert(sells_carry(s.sells, id));
                    }
                }
            }
        }
    } else {
        assert(b.1 =~= Seq::<OrderbookLog>::empty());
    }
}

/// **Law: the resting sizes are the live orders of the books.** In a portal
/// whose books are well formed and sound, and whose resting sizes track the
/// books (every live order rests with its size, every resting order is a
/// live order of the book of its ticker, every book holds only orders of its
/// ticker and marks only ids given out as cancelled), every request keeps the
/// resting sizes tracking the books. So a cancellation is accepted exactly
/// for a live order of its owner, and what a dead order returns is what it
/// had left in its book.
pub proof fn law_resting_tracks_books(st: PortalState, seqnum: u64, req: PortalRequest)
    requires
        portal_wf(st),
        books_sound(st),
        resting_tracks_books(st),
        st.last_order_id < u64::MAX,
    ensures
        resting_tracks_books(request_step(st, seqnum, req).0),
{
    lemma_tracking_facts(st);
    match req {
        PortalRequest::EventHistory(_) => {},
        PortalRequest::NewOrder(inv_id, r) => {
            if super::stock_manager::valid_order(st.stocks, r.ticker@, r.price, r.size) {
                let f = market_fill(st, r);
                let st1 = f.0;
                let t = r.ticker@;
                lemma_fill_in_frame(st, r);
                lemma_fill_in_tracks(st, r);
                assert forall|u: Seq<char>| #[trigger] st1.books.contains_key(u) implies {
                    &&& book_wf(st1.books[u])
                    &&& book_ids_distinct(st1.books[u])
                    &&& book_ids_within(st1.books[u], ids_up_to(st.last_order_id))
                } by {
                    assert(st.books.contains_key(u));
                    if u == t {
                        lemma_best_outcomes_sound(st.books[t], ids_up_to(st.last_order_id));
                    }
                }
                let req1 = PortalNewOrderRequest { price: f.1, ..r };
                let p = super::spec::potential_order(req1);
                if st1.accounts.accounts.contains_key(inv_id) && super::account::covers(st1.accounts.accounts[inv_id], p) {
                    let order_id = (st1.last_order_id + 1) as OrderId;
                    let rec = OrderRecord {
                        inv_id,
                        ticker: req1.ticker,
                        direction: req1.direction,
                        limit_price: req1.price,
                        initial_size: req1.size,
                    };
                    let st2 = PortalState {
                        last_order_id: order_id,
                        accounts: super::account_manager::AccountsView {
                            accounts: super::account_manager::accounts_after_reservation(st1.accounts.accounts, inv_id, p),
                            ..st1.accounts
                        },
                        orders: st1.orders.insert(order_id, rec),
                        ..st1
                    };
                    // Recording the new order keeps the tracking.
                    assert forall|u: Seq<char>| #[trigger] st2.books.contains_key(u) implies
                        book_ids_within(st2.books[u], ticker_ids(st2.orders, u)) by {
                        let su = st2.books[u];
                        assert forall|i: int| 0 <= i < su.buys.len() implies ticker_ids(st2.orders, u).contains(#[trigger] su.buys[i].order_id) by {
                            assert(ticker_ids(st1.orders, u).contains(su.buys[i].order_id));
                            assert(ids_up_to(st.last_order_id).contains(su.buys[i].order_id));
                        }
                        assert forall|j: int| 0 <= j < su.sells.len() implies ticker_ids(st2.orders, u).contains(#[trigger] su.sells[j].order_id) by {
                            assert(ticker_ids(st1.orders, u).contains(su.sells[j].order_id));
                            assert(ids_up_to(st.last_order_id).contains(su.sells[j].order_id));
                        }
                    }
                    assert forall|u: Seq<char>| #[trigger] st2.books.contains_key(u) implies
                        st2.books[u].deleted.subset_of(ids_up_to(st2.last_order_id)) by {
                        assert(st1.books[u].deleted.subset_of(ids_up_to(st1.last_order_id)));
                    }
                    assert forall|id: OrderId| #[trigger] st2.resting.contains_key(id) implies {
                        &&& st2.orders.contains_key(id)
                        &&& st2.books.contains_key(st2.orders[id].ticker@)
                        &&& book_live_id(st2.books[st2.orders[id].ticker@], id)
                    } by {
                        assert(st.resting.contains_key(id));
                    }
                    assert(resting_tracks_books(st2));
                    assert forall|u: Seq<char>| #[trigger] st2.books.contains_key(u) implies book_rests(st2.books[u], st2.resting) by {
                        let s = st.books[u];
                        let su = st2.books[u];
                        assert(st.books.contains_key(u));
                        if u == t {
                            lemma_pop_live_buy(s.buys, s.deleted);
                            lemma_pop_live_sell(s.sells, s.deleted);
                            assert(su.deleted.subset_of(s.deleted));
                            law_best_buy_price(s);
                            law_best_sell_price(s);
                        }
                        assert forall|i: int| 0 <= i < su.buys.len() && su.deleted.contains(su.buys[i].order_id) implies !st2.resting.contains_key(#[trigger] su.buys[i].order_id) by {
                            let id = su.buys[i].order_id;
                            if st2.resting.contains_key(id) {
                                assert(ticker_ids(st2.orders, u).contains(id));
                                assert(book_live_id(su, id));
                                if buys_live_id(su.buys, su.deleted, id) {
                                    let k = choose|k: int| 0 <= k < su.buys.len() && !su.deleted.contains(su.buys[k].order_id) && (#[trigger] su.buys[k]).order_id == id;
                                    if k < i {
                                        assert(su.buys[k].order_id != su.buys[i].order_id);
                                    } else if k > i {
                                        assert(su.buys[i].order_id != su.buys[k].order_id);
                                    }
                                } else {
                                    let k = choose|k: int| 0 <= k < su.sells.len() && !su.deleted.contains(su.sells[k].order_id) && (#[trigger] su.sells[k]).order_id == id;
                                    assert(su.buys[i].order_id != su.sells[k].order_id);
                                }
                            }
                        }
                        assert forall|j: int| 0 <= j < su.sells.len() && su.deleted.contains(su.sells[j].order_id) implies !st2.resting.contains_key(#[trigger] su.sells[j].order_id) by {
                            let id = su.sells[j].order_id;
                            if st2.resting.contains_key(id) {
                                assert(ticker_ids(st2.orders, u).contains(id));
                                assert(book_live_id(su, id));
                                if sells_live_id(su.sells, su.deleted, id) {
                                    let k = choose|k: int| 0 <= k < su.sells.len() && !su.deleted.contains(su.sells[k].order_id) && (#[trigger] su.sells[k]).order_id == id;
                                    if k < j {
                                        assert(su.sells[k].order_id != su.sells[j].order_id);
                                    } else if k > j {
                                        assert(su.sells[j].order_id != su.sells[k].order_id);
                                    }
                                } else {
                                    let k = choose|k: int| 0 <= k < su.buys.len() && !su.deleted.contains(su.buys[k].order_id) && (#[trigger] su.buys[k]).order_id == id;
                                    assert(su.buys[k].order_id != su.sells[j].order_id);
                                }
                            }
                        }
                    }
                    lemma_new_order_tracks(st2, t, book_order(order_id, req1));
                }
            }
        },
        PortalRequest::CancelOrder(inv_id, order_id) => {
            let ro = super::order_info::resting_outcome(st.resting, order_id);
            let st1 = PortalState { resting: ro.1, ..st };
            assert(st1 == st);
            if ro.0 is Some && st.orders.contains_key(order_id) && st.orders[order_id].inv_id == inv_id {
                let t = st.orders[order_id].ticker@;
                let s = st.books[t];
                let breq = OrderbookRequest::CancelOrder(CancelOrderRequest { order_id });
                let b = book_step(st, t, breq);
                lemma_logs_step_frame(b.0, b.1);
                lemma_logs_step_resting(b.0, b.1);
                let l = logs_step(b.0, b.1).0;
                let r = st.resting;
                lemma_resting_two(r, b.1[0], b.1[1]);
                assert(b.1 =~= seq![b.1[0], b.1[1]]);
                assert(l.resting =~= r.remove(order_id));
                // The cancelled order is live in its book, so its id was given out.
                assert(order_id <= st.last_order_id);
                assert forall|u: Seq<char>| #[trigger] l.books.contains_key(u) implies {
                    &&& book_ids_within(l.books[u], ticker_ids(l.orders, u))
                    &&& l.books[u].deleted.subset_of(ids_up_to(l.last_order_id))
                    &&& live_buys_rest(l.books[u].buys, l.books[u].deleted, l.resting)
                    &&& live_sells_rest(l.books[u].sells, l.books[u].deleted, l.resting)
                } by {
                    assert(st.books.contains_key(u));
                    let su = st.books[u];
                    if u != t {
                        assert forall|i: int| 0 <= i < su.buys.len() && !su.deleted.contains(su.buys[i].order_id) implies l.resting.contains_key(#[trigger] su.buys[i].order_id)
                            && l.resting[su.buys[i].order_id] == su.buys[i].size by {
                            assert(ticker_ids(st.orders, u).contains(su.buys[i].order_id));
                        }
                        assert forall|j: int| 0 <= j < su.sells.len() && !su.deleted.contains(su.sells[j].order_id) implies l.resting.contains_key(#[trigger] su.sells[j].order_id)
                            && l.resting[su.sells[j].order_id] == su.sells[j].size by {
                            assert(ticker_ids(st.orders, u).contains(su.sells[j].order_id));
                        }
                    }
                }
                assert forall|id: OrderId| #[trigger] l.resting.contains_key(id) implies {
                    &&& l.orders.contains_key(id)
                    &&& l.books.contains_key(l.orders[id].ticker@)
                    &&& book_live_id(l.books[l.orders[id].ticker@], id)
                } by {
                    assert(st.resting.contains_key(id));
                    let u = st.orders[id].ticker@;
                    if u == t {
                        let s2 = l.books[t];
                        if buys_live_id(s.buys, s.deleted, id) {
                            let i = choose|i: int| 0 <= i < s.buys.len() && !s.deleted.contains(s.buys[i].order_id) && (#[trigger] s.buys[i]).order_id == id;
                            assert(s2.buys[i] == s.buys[i]);
                        } else {
                            let j = choose|j: int| 0 <= j < s.sells.len() && !s.deleted.contains(s.sells[j].order_id) && (#[trigger] s.sells[j]).order_id == id;
                            assert(s2.sells[j] == s.sells[j]);
                        }
                    }
                }
            }
        },
    }
}

/// **Law: a new portal's resting sizes track its books.** A new portal has
/// empty books, no cancelled id and nothing resting.
pub proof fn law_new_portal_tracks(stocks: Seq<(Ticker, super::stock_manager::StockRecord)>, st: PortalState)
    requires
        st.books == crate::portal::books_of(stocks),
        st.resting == Map::<OrderId, Size>::empty(),
    ensures
        resting_tracks_books(st),
{
    assert forall|t: Seq<char>| #[trigger] st.books.contains_key(t) implies {
        &&& book_ids_within(st.books[t], ticker_ids(st.orders, t))
        &&& st.books[t].deleted.subset_of(ids_up_to(st.last_order_id))
        &&& live_buys_rest(st.books[t].buys, st.books[t].deleted, st.resting)
        &&& live_sells_rest(st.books[t].sells, st.books[t].deleted, st.resting)
    } by {
        crate::portal::lemma_books_of_empty(stocks, t);
    }
}

} // verus!

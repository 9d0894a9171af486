//! Properties of the order book that hold across its operations: the book
//! never stays crossed, looking up a best price keeps every live order, and
//! matching conserves shares and respects the incoming order's price.

use vstd::prelude::*;
use crate::types::common::{OrderId, Ticker};
use crate::types::order::{BuyOrder, SellOrder, buy_outranks, sell_outranks};
use crate::types::orderbook::{NewOrderRequest, OrderbookLog, OrderbookRequest};
use crate::utils::response_order_id;
use crate::types::portal::OrderResponse;
use super::orderbook::{
    BookState, book_wf, buys_sorted, sells_sorted, buy_slot, sell_slot, insert_buy, insert_sell, match_buy, match_sell,
    new_buy_outcome, new_sell_outcome, new_order_outcome, request_outcome, should_rest,
    fill_logs, dead_log, added_log, best_buy_outcome, best_sell_outcome,
    pop_live_buy, pop_live_sell, lemma_pop_live_buy, lemma_pop_live_sell, lemma_buy_slot_facts,
    lemma_sell_slot_facts,
};

verus! {

/// A resting buy order is live while its id is not marked cancelled.
pub open spec fn live_buy(s: BookState, i: int) -> bool {
    0 <= i < s.buys.len() && !s.deleted.contains(s.buys[i].order_id)
}

/// A resting sell order is live while its id is not marked cancelled.
pub open spec fn live_sell(s: BookState, j: int) -> bool {
    0 <= j < s.sells.len() && !s.deleted.contains(s.sells[j].order_id)
}

/// Every live buy order bids less than every live sell order asks.
pub open spec fn uncrossed(s: BookState) -> bool {
    forall|i: int, j: int|
        #![trigger live_buy(s, i), live_sell(s, j)]
        live_buy(s, i) && live_sell(s, j) ==> s.buys[i].price < s.sells[j].price
}

/// No order id occurs twice in the book, on either side.
pub open spec fn book_ids_distinct(s: BookState) -> bool {
    &&& forall|i: int, j: int|
        #![trigger s.buys[i], s.buys[j]]
        0 <= i < j < s.buys.len() ==> s.buys[i].order_id != s.buys[j].order_id
    &&& forall|i: int, j: int|
        #![trigger s.sells[i], s.sells[j]]
        0 <= i < j < s.sells.len() ==> s.sells[i].order_id != s.sells[j].order_id
    &&& forall|i: int, j: int|
        #![trigger s.buys[i], s.sells[j]]
        0 <= i < s.buys.len() && 0 <= j < s.sells.len() ==> s.buys[i].order_id != s.sells[j].order_id
}

/// No resting order carries `id`.
pub open spec fn id_fresh(s: BookState, id: OrderId) -> bool {
    &&& forall|i: int| 0 <= i < s.buys.len() ==> #[trigger] s.buys[i].order_id != id
    &&& forall|j: int| 0 <= j < s.sells.len() ==> #[trigger] s.sells[j].order_id != id
}

/// The request brings no id that already rests in the book.
pub open spec fn request_fresh(s: BookState, req: OrderbookRequest) -> bool {
    match req {
        OrderbookRequest::NewOrder(r) => id_fresh(s, r.order_id),
        OrderbookRequest::CancelOrder(_) => true,
    }
}

/// Some sell order in `sells` carries `id`.
pub open spec fn sells_have_id(sells: Seq<SellOrder>, id: OrderId) -> bool {
    exists|k: int| 0 <= k < sells.len() && #[trigger] sells[k].order_id == id
}

/// Some buy order in `buys` carries `id`.
pub open spec fn buys_have_id(buys: Seq<BuyOrder>, id: OrderId) -> bool {
    exists|k: int| 0 <= k < buys.len() && #[trigger] buys[k].order_id == id
}

/// What matching a buy order leaves of the sell side: a suffix whose first
/// order may have fewer shares; what it forgets of the cancelled ids are ids
/// of sell orders it discarded; and when shares of the buy order are left,
/// every live remaining sell order asks more than the buy order's price.
pub(crate) proof fn lemma_match_buy_shape(
    sells: Seq<SellOrder>,
    deleted: Set<OrderId>,
    req: NewOrderRequest,
    left: u32,
    ticker: Ticker,
)
    requires
        sells_sorted(sells),
        forall|i: int| 0 <= i < sells.len() ==> #[trigger] sells[i].size > 0,
    ensures
        ({
            let r = match_buy(sells, deleted, req, left, ticker);
            let d = sells.len() - r.0.len();
            &&& 0 <= d <= sells.len()
            &&& forall|i: int| 1 <= i < r.0.len() ==> #[trigger] r.0[i] == sells[i + d]
            &&& r.0.len() > 0 ==> {
                &&& r.0[0].order_id == sells[d].order_id
                &&& r.0[0].price == sells[d].price
                &&& r.0[0].timestamp == sells[d].timestamp
                &&& 0 < r.0[0].size <= sells[d].size
            }
            &&& r.1.subset_of(deleted)
            &&& forall|x: OrderId| #[trigger] deleted.contains(x) && !r.1.contains(x) ==> sells_have_id(sells.subrange(0, d), x)
            &&& r.3 <= left
            &&& r.3 > 0 ==> forall|i: int|
                0 <= i < r.0.len() && !r.1.contains(#[trigger] r.0[i].order_id) ==> r.0[i].price > req.price
        }),
    decreases sells.len(),
{
    if sells.len() > 0 {
        let b = sells[0];
        let rest = sells.drop_first();
        if deleted.contains(b.order_id) {
            lemma_match_buy_shape(rest, deleted.remove(b.order_id), req, left, ticker);
            let r = match_buy(rest, deleted.remove(b.order_id), req, left, ticker);
            let d = rest.len() - r.0.len();
            assert forall|i: int| 1 <= i < r.0.len() implies #[trigger] r.0[i] == sells[i + d + 1] by {
                assert(r.0[i] == rest[i + d]);
            }
            assert forall|x: OrderId| #[trigger] deleted.contains(x) && !r.1.contains(x) implies sells_have_id(sells.subrange(0, d + 1), x) by {
                if x == b.order_id {
                    assert(sells.subrange(0, d + 1)[0].order_id == x);
                } else {
                    assert(deleted.remove(b.order_id).contains(x));
                    let k = choose|k: int| 0 <= k < d && #[trigger] rest.subrange(0, d)[k].order_id == x;
                    assert(sells.subrange(0, d + 1)[k + 1].order_id == x);
                }
            }
            assert(r.1.subset_of(deleted));
        } else if b.price > req.price || left == 0 {
            assert forall|i: int| 0 <= i < sells.len() && !deleted.contains(#[trigger] sells[i].order_id) && left > 0 implies sells[i].price > req.price by {
                if i > 0 {
                    assert(!sell_outranks(sells[i], sells[0]));
                }
            }
        } else if left < b.size {
        } else {
            lemma_match_buy_shape(rest, deleted, req, (left - b.size) as u32, ticker);
            let r = match_buy(rest, deleted, req, (left - b.size) as u32, ticker);
            let d = rest.len() - r.0.len();
            assert forall|i: int| 1 <= i < r.0.len() implies #[trigger] r.0[i] == sells[i + d + 1] by {
                assert(r.0[i] == rest[i + d]);
            }
            assert forall|x: OrderId| #[trigger] deleted.contains(x) && !r.1.contains(x) implies sells_have_id(sells.subrange(0, d + 1), x) by {
                let k = choose|k: int| 0 <= k < d && #[trigger] rest.subrange(0, d)[k].order_id == x;
                assert(sells.subrange(0, d + 1)[k + 1].order_id == x);
            }
        }
    }
}

/// What matching a sell order leaves of the buy side: a suffix whose first
/// order may have fewer shares; what it forgets of the cancelled ids are ids
/// of sell orders it discarded; and when shares of the sell order are left,
/// every live remaining buy order bids less than the sell order's price.
pub(crate) proof fn lemma_match_sell_shape(
    buys: Seq<BuyOrder>,
    deleted: Set<OrderId>,
    req: NewOrderRequest,
    left: u32,
    ticker: Ticker,
)
    requires
        buys_sorted(buys),
        forall|i: int| 0 <= i < buys.len() ==> #[trigger] buys[i].size > 0,
    ensures
        ({
            let r = match_sell(buys, deleted, req, left, ticker);
            let d = buys.len() - r.0.len();
            &&& 0 <= d <= buys.len()
            &&& forall|i: int| 1 <= i < r.0.len() ==> #[trigger] r.0[i] == buys[i + d]
            &&& r.0.len() > 0 ==> {
                &&& r.0[0].order_id == buys[d].order_id
                &&& r.0[0].price == buys[d].price
                &&& r.0[0].timestamp == buys[d].timestamp
                &&& 0 < r.0[0].size <= buys[d].size
            }
            &&& r.1.subset_of(deleted)
            &&& forall|x: OrderId| #[trigger] deleted.contains(x) && !r.1.contains(x) ==> buys_have_id(buys.subrange(0, d), x)
            &&& r.3 <= left
            &&& r.3 > 0 ==> forall|i: int|
                0 <= i < r.0.len() && !r.1.contains(#[trigger] r.0[i].order_id) ==> r.0[i].price < req.price
        }),
    decreases buys.len(),
{
    if buys.len() > 0 {
        let b = buys[0];
        let rest = buys.drop_first();
        if deleted.contains(b.order_id) {
            lemma_match_sell_shape(rest, deleted.remove(b.order_id), req, left, ticker);
            let r = match_sell(rest, deleted.remove(b.order_id), req, left, ticker);
            let d = rest.len() - r.0.len();
            assert forall|i: int| 1 <= i < r.0.len() implies #[trigger] r.0[i] == buys[i + d + 1] by {
                assert(r.0[i] == rest[i + d]);
            }
            assert forall|x: OrderId| #[trigger] deleted.contains(x) && !r.1.contains(x) implies buys_have_id(buys.subrange(0, d + 1), x) by {
                if x == b.order_id {
                    assert(buys.subrange(0, d + 1)[0].order_id == x);
                } else {
                    assert(deleted.remove(b.order_id).contains(x));
                    let k = choose|k: int| 0 <= k < d && #[trigger] rest.subrange(0, d)[k].order_id == x;
                    assert(buys.subrange(0, d + 1)[k + 1].order_id == x);
                }
            }
            assert(r.1.subset_of(deleted));
        } else if b.price < req.price || left == 0 {
            assert forall|i: int| 0 <= i < buys.len() && !deleted.contains(#[trigger] buys[i].order_id) && left > 0 implies buys[i].price < req.price by {
                if i > 0 {
                    assert(!buy_outranks(buys[i], buys[0]));
                }
            }
        } else if left < b.size {
        } else {
            lemma_match_sell_shape(rest, deleted, req, (left - b.size) as u32, ticker);
            let r = match_sell(rest, deleted, req, (left - b.size) as u32, ticker);
            let d = rest.len() - r.0.len();
            assert forall|i: int| 1 <= i < r.0.len() implies #[trigger] r.0[i] == buys[i + d + 1] by {
                assert(r.0[i] == rest[i + d]);
            }
            assert forall|x: OrderId| #[trigger] deleted.contains(x) && !r.1.contains(x) implies buys_have_id(buys.subrange(0, d + 1), x) by {
                let k = choose|k: int| 0 <= k < d && #[trigger] rest.subrange(0, d)[k].order_id == x;
                assert(buys.subrange(0, d + 1)[k + 1].order_id == x);
            }
        }
    }
}


/// After a new buy order with a fresh id, the book is uncrossed if it was,
/// and its ids stay distinct.
proof fn lemma_new_buy_uncrossed(s: BookState, req: NewOrderRequest)
    requires
        book_wf(s),
        book_ids_distinct(s),
        uncrossed(s),
        id_fresh(s, req.order_id),
    ensures
        uncrossed(new_buy_outcome(s, req).0),
        book_ids_distinct(new_buy_outcome(s, req).0),
{
    let r = match_buy(s.sells, s.deleted, req, req.size, s.ticker);
    lemma_match_buy_shape(s.sells, s.deleted, req, req.size, s.ticker);
    let d = s.sells.len() - r.0.len();
    let t = new_buy_outcome(s, req).0;
    let o = BuyOrder { order_id: req.order_id, size: r.3, price: req.price, timestamp: req.timestamp };
    let rests = crate::portal::orderbook::should_rest(req, r.3);
    let k = buy_slot(s.buys, o) as int;
    lemma_buy_slot_facts(s.buys, o);
    assert(t.sells == r.0 && t.deleted == r.1);
    // Every remaining sell order is the one at the same place behind the
    // discarded prefix, and is live exactly when it was.
    assert forall|j: int| 0 <= j < t.sells.len() implies {
        &&& #[trigger] t.sells[j].order_id == s.sells[j + d].order_id
        &&& t.sells[j].price == s.sells[j + d].price
        &&& (t.deleted.contains(t.sells[j].order_id) <==> s.deleted.contains(s.sells[j + d].order_id))
    } by {
        if j > 0 {
            assert(r.0[j] == s.sells[j + d]);
        }
        let x = s.sells[j + d].order_id;
        if s.deleted.contains(x) && !r.1.contains(x) {
            let m = choose|m: int| 0 <= m < d && #[trigger] s.sells.subrange(0, d)[m].order_id == x;
            assert(s.sells[m].order_id == x);
        }
    }
    // A resting buy order of `t` is the new order or an old one; an old one
    // is live in `t` only if it was live in `s`.
    assert forall|i: int| 0 <= i < t.buys.len() && !(rests && i == k) implies {
        &&& #[trigger] t.buys[i] == (if rests && i > k { s.buys[i - 1] } else { s.buys[i] })
        &&& (!t.deleted.contains(t.buys[i].order_id) ==> !s.deleted.contains(t.buys[i].order_id))
    } by {
        let i0 = if rests && i > k { i - 1 } else { i };
        assert(t.buys[i] == s.buys[i0]);
        let x = s.buys[i0].order_id;
        if s.deleted.contains(x) && !r.1.contains(x) {
            let m = choose|m: int| 0 <= m < d && #[trigger] s.sells.subrange(0, d)[m].order_id == x;
            assert(s.sells[m].order_id == x);
        }
    }
    assert forall|i: int, j: int| live_buy(t, i) && live_sell(t, j) implies #[trigger] t.buys[i].price < #[trigger] t.sells[j].price by {
        if rests && i == k {
            assert(t.buys[i] == o);
        } else {
            let i0 = if rests && i > k { i - 1 } else { i };
            assert(t.buys[i] == s.buys[i0]);
            assert(live_buy(s, i0) && live_sell(s, j + d));
        }
    }
    assert forall|i: int, j: int| 0 <= i < j < t.buys.len() implies #[trigger] t.buys[i].order_id != #[trigger] t.buys[j].order_id by {
        if rests {
            if i == k {
                assert(t.buys[i] == o);
                assert(t.buys[j] == s.buys[j - 1]);
            } else if j == k {
                assert(t.buys[j] == o);
                assert(t.buys[i] == s.buys[i]);
            } else {
                let i0 = if i > k { i - 1 } else { i };
                let j0 = if j > k { j - 1 } else { j };
                assert(t.buys[i] == s.buys[i0] && t.buys[j] == s.buys[j0]);
            }
        } else {
            assert(t.buys[i] == s.buys[i] && t.buys[j] == s.buys[j]);
        }
    }
    assert forall|i: int, j: int| 0 <= i < j < t.sells.len() implies #[trigger] t.sells[i].order_id != #[trigger] t.sells[j].order_id by {
        assert(t.sells[i].order_id == s.sells[i + d].order_id);
        assert(t.sells[j].order_id == s.sells[j + d].order_id);
    }
    assert forall|i: int, j: int| 0 <= i < t.buys.len() && 0 <= j < t.sells.len() implies #[trigger] t.buys[i].order_id != #[trigger] t.sells[j].order_id by {
        assert(t.sells[j].order_id == s.sells[j + d].order_id);
        if rests && i == k {
            assert(t.buys[i] == o);
        } else {
            let i0 = if rests && i > k { i - 1 } else { i };
            assert(t.buys[i] == s.buys[i0]);
        }
    }
}

/// After a new sell order with a fresh id, the book is uncrossed if it was,
/// and its ids stay distinct.
proof fn lemma_new_sell_uncrossed(s: BookState, req: NewOrderRequest)
    requires
        book_wf(s),
        book_ids_distinct(s),
        uncrossed(s),
        id_fresh(s, req.order_id),
    ensures
        uncrossed(new_sell_outcome(s, req).0),
        book_ids_distinct(new_sell_outcome(s, req).0),
{
    let r = match_sell(s.buys, s.deleted, req, req.size, s.ticker);
    lemma_match_sell_shape(s.buys, s.deleted, req, req.size, s.ticker);
    let d = s.buys.len() - r.0.len();
    let t = new_sell_outcome(s, req).0;
    let o = SellOrder { order_id: req.order_id, size: r.3, price: req.price, timestamp: req.timestamp };
    let rests = crate::portal::orderbook::should_rest(req, r.3);
    let k = sell_slot(s.sells, o) as int;
    lemma_sell_slot_facts(s.sells, o);
    assert(t.buys == r.0 && t.deleted == r.1);
    assert forall|i: int| 0 <= i < t.buys.len() implies {
        &&& #[trigger] t.buys[i].order_id == s.buys[i + d].order_id
        &&& t.buys[i].price == s.buys[i + d].price
        &&& (t.deleted.contains(t.buys[i].order_id) <==> s.deleted.contains(s.buys[i + d].order_id))
    } by {
        if i > 0 {
            assert(r.0[i] == s.buys[i + d]);
        }
        let x = s.buys[i + d].order_id;
        if s.deleted.contains(x) && !r.1.contains(x) {
            let m = choose|m: int| 0 <= m < d && #[trigger] s.buys.subrange(0, d)[m].order_id == x;
            assert(s.buys[m].order_id == x);
        }
    }
    assert forall|j: int| 0 <= j < t.sells.len() && !(rests && j == k) implies {
        &&& #[trigger] t.sells[j] == (if rests && j > k { s.sells[j - 1] } else { s.sells[j] })
        &&& (!t.deleted.contains(t.sells[j].order_id) ==> !s.deleted.contains(t.sells[j].order_id))
    } by {
        let j0 = if rests && j > k { j - 1 } else { j };
        assert(t.sells[j] == s.sells[j0]);
        let x = s.sells[j0].order_id;
        if s.deleted.contains(x) && !r.1.contains(x) {
            let m = choose|m: int| 0 <= m < d && #[trigger] s.buys.subrange(0, d)[m].order_id == x;
            assert(s.buys[m].order_id == x);
        }
    }
    assert forall|i: int, j: int| live_buy(t, i) && live_sell(t, j) implies #[trigger] t.buys[i].price < #[trigger] t.sells[j].price by {
        if rests && j == k {
            assert(t.sells[j] == o);
        } else {
            let j0 = if rests && j > k { j - 1 } else { j };
            assert(t.sells[j] == s.sells[j0]);
            assert(live_buy(s, i + d) && live_sell(s, j0));
        }
    }
    assert forall|i: int, j: int| 0 <= i < j < t.sells.len() implies #[trigger] t.sells[i].order_id != #[trigger] t.sells[j].order_id by {
        if rests {
            if i == k {
                assert(t.sells[i] == o);
                assert(t.sells[j] == s.sells[j - 1]);
            } else if j == k {
                assert(t.sells[j] == o);
                assert(t.sells[i] == s.sells[i]);
            } else {
                let i0 = if i > k { i - 1 } else { i };
                let j0 = if j > k { j - 1 } else { j };
                assert(t.sells[i] == s.sells[i0] && t.sells[j] == s.sells[j0]);
            }
        } else {
            assert(t.sells[i] == s.sells[i] && t.sells[j] == s.sells[j]);
        }
    }
    assert forall|i: int, j: int| 0 <= i < j < t.buys.len() implies #[trigger] t.buys[i].order_id != #[trigger] t.buys[j].order_id by {
        assert(t.buys[i].order_id == s.buys[i + d].order_id);
        assert(t.buys[j].order_id == s.buys[j + d].order_id);
    }
    assert forall|i: int, j: int| 0 <= i < t.buys.len() && 0 <= j < t.sells.len() implies #[trigger] t.buys[i].order_id != #[trigger] t.sells[j].order_id by {
        assert(t.buys[i].order_id == s.buys[i + d].order_id);
        if rests && j == k {
            assert(t.sells[j] == o);
        } else {
            let j0 = if rests && j > k { j - 1 } else { j };
            assert(t.sells[j] == s.sells[j0]);
        }
    }
}

/// **Law: the book never crosses.** Starting from a well-formed book whose
/// order ids are distinct and in which every live bid is below every live
/// ask, any request whose new order carries an id not resting in the book
/// leaves every live bid below every live ask, with ids still distinct.
pub proof fn law_book_stays_uncrossed(s: BookState, req: OrderbookRequest)
    requires
        book_wf(s),
        book_ids_distinct(s),
        uncrossed(s),
        request_fresh(s, req),
    ensures
        uncrossed(request_outcome(s, req).0),
        book_ids_distinct(request_outcome(s, req).0),
{
    match req {
        OrderbookRequest::NewOrder(r) => {
            match r.direction {
                crate::types::common::Direction::Buy => lemma_new_buy_uncrossed(s, r),
                crate::types::common::Direction::Sell => lemma_new_sell_uncrossed(s, r),
            }
        },
        OrderbookRequest::CancelOrder(c) => {
            let t = request_outcome(s, req).0;
            assert forall|i: int, j: int| live_buy(t, i) && live_sell(t, j) implies #[trigger] t.buys[i].price < #[trigger] t.sells[j].price by {
                assert(live_buy(s, i) && live_sell(s, j));
            }
        },
    }
}

/// The orders that `pop_live_buy` discards are the ones in front of the
/// order it returns; they were all marked cancelled, and the ids it forgets
/// are theirs.
pub(crate) proof fn lemma_pop_live_buy_discards(buys: Seq<BuyOrder>, deleted: Set<OrderId>)
    ensures
        ({
            let p = pop_live_buy(buys, deleted);
            let n = buys.len() - p.1.len() - (if p.0 is Some { 1int } else { 0int });
            &&& 0 <= n
            &&& forall|i: int| 0 <= i < n ==> deleted.contains(#[trigger] buys[i].order_id)
            &&& forall|x: OrderId| #[trigger] deleted.contains(x) && !p.2.contains(x)
                ==> buys_have_id(buys.subrange(0, n), x)
        }),
    decreases buys.len(),
{
    lemma_pop_live_buy(buys, deleted);
    if buys.len() > 0 && deleted.contains(buys[0].order_id) {
        let rest = buys.drop_first();
        let del1 = deleted.remove(buys[0].order_id);
        lemma_pop_live_buy_discards(rest, del1);
        let p = pop_live_buy(rest, del1);
        let n1 = rest.len() - p.1.len() - (if p.0 is Some { 1int } else { 0int });
        assert forall|i: int| 0 <= i < n1 + 1 implies deleted.contains(#[trigger] buys[i].order_id) by {
            if i > 0 {
                assert(buys[i] == rest[i - 1]);
            }
        }
        assert forall|x: OrderId| #[trigger] deleted.contains(x) && !p.2.contains(x) implies buys_have_id(buys.subrange(0, n1 + 1), x) by {
            if x == buys[0].order_id {
                assert(buys.subrange(0, n1 + 1)[0].order_id == x);
            } else {
                assert(del1.contains(x));
                let m = choose|m: int| 0 <= m < n1 && #[trigger] rest.subrange(0, n1)[m].order_id == x;
                assert(buys.subrange(0, n1 + 1)[m + 1].order_id == x);
            }
        }
    }
}

/// The sell-side counterpart of `lemma_pop_live_buy_discards`.
pub(crate) proof fn lemma_pop_live_sell_discards(sells: Seq<SellOrder>, deleted: Set<OrderId>)
    ensures
        ({
            let p = pop_live_sell(sells, deleted);
            let n = sells.len() - p.1.len() - (if p.0 is Some { 1int } else { 0int });
            &&& 0 <= n
            &&& forall|i: int| 0 <= i < n ==> deleted.contains(#[trigger] sells[i].order_id)
            &&& forall|x: OrderId| #[trigger] deleted.contains(x) && !p.2.contains(x)
                ==> sells_have_id(sells.subrange(0, n), x)
        }),
    decreases sells.len(),
{
    lemma_pop_live_sell(sells, deleted);
    if sells.len() > 0 && deleted.contains(sells[0].order_id) {
        let rest = sells.drop_first();
        let del1 = deleted.remove(sells[0].order_id);
        lemma_pop_live_sell_discards(rest, del1);
        let p = pop_live_sell(rest, del1);
        let n1 = rest.len() - p.1.len() - (if p.0 is Some { 1int } else { 0int });
        assert forall|i: int| 0 <= i < n1 + 1 implies deleted.contains(#[trigger] sells[i].order_id) by {
            if i > 0 {
                assert(sells[i] == rest[i - 1]);
            }
        }
        assert forall|x: OrderId| #[trigger] deleted.contains(x) && !p.2.contains(x) implies sells_have_id(sells.subrange(0, n1 + 1), x) by {
            if x == sells[0].order_id {
                assert(sells.subrange(0, n1 + 1)[0].order_id == x);
            } else {
                assert(del1.contains(x));
                let m = choose|m: int| 0 <= m < n1 && #[trigger] rest.subrange(0, n1)[m].order_id == x;
                assert(sells.subrange(0, n1 + 1)[m + 1].order_id == x);
            }
        }
    }
}

/// The live buy orders of a book.
pub open spec fn live_buy_orders(s: BookState) -> Set<BuyOrder> {
    Set::new(|o: BuyOrder| exists|i: int| live_buy(s, i) && s.buys[i] == o)
}

/// The live sell orders of a book.
pub open spec fn live_sell_orders(s: BookState) -> Set<SellOrder> {
    Set::new(|o: SellOrder| exists|j: int| live_sell(s, j) && s.sells[j] == o)
}

/// **Law: looking up the best bid changes no live order.** In a
/// well-formed book with distinct ids, `best_buy_price` reports the highest
/// price among live buy orders (none when there is no live buy order), and
/// afterwards the live buy and sell orders are exactly what they were.
pub proof fn law_best_buy_price(s: BookState)
    requires
        book_wf(s),
        book_ids_distinct(s),
    ensures
        ({
            let (p, t) = best_buy_outcome(s);
            &&& p is None <==> (forall|i: int| !live_buy(s, i))
            &&& p matches Some(x) ==> {
                &&& exists|i: int| live_buy(s, i) && s.buys[i].price == x
                &&& forall|i: int| live_buy(s, i) ==> s.buys[i].price <= x
            }
            &&& live_buy_orders(t) == live_buy_orders(s)
            &&& live_sell_orders(t) == live_sell_orders(s)
        }),
{
    let p = pop_live_buy(s.buys, s.deleted);
    lemma_pop_live_buy(s.buys, s.deleted);
    lemma_pop_live_buy_discards(s.buys, s.deleted);
    let t = best_buy_outcome(s).1;
    let n = s.buys.len() - p.1.len() - (if p.0 is Some { 1int } else { 0int });
    // Liveness of an id other than a discarded one is the same before and after.
    assert forall|x: OrderId| !buys_have_id(s.buys.subrange(0, n), x) implies (#[trigger] t.deleted.contains(x) <==> s.deleted.contains(x)) by {
        if s.deleted.contains(x) && !t.deleted.contains(x) {
            assert(buys_have_id(s.buys.subrange(0, n), x));
        }
    }
    // The buy orders of `t` are those of `s` from position `n` on.
    assert forall|i: int| 0 <= i < t.buys.len() implies #[trigger] t.buys[i] == s.buys[i + n] by {
        if p.0 is Some {
            if i > 0 {
                assert(t.buys[i] == p.1[i - 1]);
            }
        } else {
            assert(t.buys[i] == p.1[i]);
        }
    }
    assert(t.buys.len() == s.buys.len() - n);
    assert forall|i: int| 0 <= i < s.buys.len() && i >= n implies !buys_have_id(s.buys.subrange(0, n), #[trigger] s.buys[i].order_id) by {
        if buys_have_id(s.buys.subrange(0, n), s.buys[i].order_id) {
            let m = choose|m: int| 0 <= m < n && #[trigger] s.buys.subrange(0, n)[m].order_id == s.buys[i].order_id;
            assert(s.buys[m].order_id == s.buys[i].order_id);
        }
    }
    assert forall|j: int| 0 <= j < s.sells.len() implies !buys_have_id(s.buys.subrange(0, n), #[trigger] s.sells[j].order_id) by {
        if buys_have_id(s.buys.subrange(0, n), s.sells[j].order_id) {
            let m = choose|m: int| 0 <= m < n && #[trigger] s.buys.subrange(0, n)[m].order_id == s.sells[j].order_id;
            assert(s.buys[m].order_id == s.sells[j].order_id);
        }
    }
    assert forall|i: int| 0 <= i < s.buys.len() implies (live_buy(s, i) <==> (i >= n && #[trigger] live_buy(t, i - n))) by {
        if i < n {
            assert(s.deleted.contains(s.buys[i].order_id));
        } else {
            assert(t.buys[i - n] == s.buys[i]);
        }
    }
    assert(live_buy_orders(t) =~= live_buy_orders(s)) by {
        assert forall|o: BuyOrder| live_buy_orders(s).contains(o) implies live_buy_orders(t).contains(o) by {
            let i = choose|i: int| live_buy(s, i) && s.buys[i] == o;
            assert(live_buy(t, i - n) && t.buys[i - n] == o);
        }
        assert forall|o: BuyOrder| live_buy_orders(t).contains(o) implies live_buy_orders(s).contains(o) by {
            let i = choose|i: int| live_buy(t, i) && t.buys[i] == o;
            assert(t.buys[i] == s.buys[i + n]);
            assert(live_buy(s, i + n));
        }
    }
    assert(live_sell_orders(t) =~= live_sell_orders(s)) by {
        assert forall|j: int| 0 <= j < s.sells.len() implies (#[trigger] live_sell(t, j) <==> live_sell(s, j)) by {
            assert(t.sells[j] == s.sells[j]);
        }
        assert forall|o: SellOrder| live_sell_orders(s).contains(o) implies live_sell_orders(t).contains(o) by {
            let j = choose|j: int| live_sell(s, j) && s.sells[j] == o;
            assert(live_sell(t, j));
        }
        assert forall|o: SellOrder| live_sell_orders(t).contains(o) implies live_sell_orders(s).contains(o) by {
            let j = choose|j: int| live_sell(t, j) && t.sells[j] == o;
            assert(live_sell(s, j));
        }
    }
    match p.0 {
        Some(b) => {
            assert(s.buys[n] == b);
            assert(live_buy(t, 0));
            assert(live_buy(s, n));
            assert forall|i: int| live_buy(s, i) implies s.buys[i].price <= b.price by {
                if i > n {
                    assert(!buy_outranks(s.buys[i], s.buys[n]));
                }
            }
        },
        None => {
            assert forall|i: int| !live_buy(s, i) by {
                if 0 <= i < s.buys.len() {
                    assert(s.deleted.contains(s.buys[i].order_id));
                }
            }
        },
    }
}
/// **Law: looking up the best ask changes no live order.** In a
/// well-formed book with distinct ids, `best_sell_price` reports the lowest
/// price among live sell orders (none when there is no live sell order), and
/// afterwards the live sell and buy orders are exactly what they were.
pub proof fn law_best_sell_price(s: BookState)
    requires
        book_wf(s),
        book_ids_distinct(s),
    ensures
        ({
            let (p, t) = best_sell_outcome(s);
            &&& p is None <==> (forall|i: int| !live_sell(s, i))
            &&& p matches Some(x) ==> {
                &&& exists|i: int| live_sell(s, i) && s.sells[i].price == x
                &&& forall|i: int| live_sell(s, i) ==> s.sells[i].price >= x
            }
            &&& live_sell_orders(t) == live_sell_orders(s)
            &&& live_buy_orders(t) == live_buy_orders(s)
        }),
{
    let p = pop_live_sell(s.sells, s.deleted);
    lemma_pop_live_sell(s.sells, s.deleted);
    lemma_pop_live_sell_discards(s.sells, s.deleted);
    let t = best_sell_outcome(s).1;
    let n = s.sells.len() - p.1.len() - (if p.0 is Some { 1int } else { 0int });
    // Liveness of an id other than a discarded one is the same before and after.
    assert forall|x: OrderId| !sells_have_id(s.sells.subrange(0, n), x) implies (#[trigger] t.deleted.contains(x) <==> s.deleted.contains(x)) by {
        if s.deleted.contains(x) && !t.deleted.contains(x) {
            assert(sells_have_id(s.sells.subrange(0, n), x));
        }
    }
    // The sell orders of `t` are those of `s` from position `n` on.
    assert forall|i: int| 0 <= i < t.sells.len() implies #[trigger] t.sells[i] == s.sells[i + n] by {
        if p.0 is Some {
            if i > 0 {
                assert(t.sells[i] == p.1[i - 1]);
            }
        } else {
            assert(t.sells[i] == p.1[i]);
        }
    }
    assert(t.sells.len() == s.sells.len() - n);
    assert forall|i: int| 0 <= i < s.sells.len() && i >= n implies !sells_have_id(s.sells.subrange(0, n), #[trigger] s.sells[i].order_id) by {
        if sells_have_id(s.sells.subrange(0, n), s.sells[i].order_id) {
            let m = choose|m: int| 0 <= m < n && #[trigger] s.sells.subrange(0, n)[m].order_id == s.sells[i].order_id;
            assert(s.sells[m].order_id == s.sells[i].order_id);
        }
    }
    assert forall|j: int| 0 <= j < s.buys.len() implies !sells_have_id(s.sells.subrange(0, n), #[trigger] s.buys[j].order_id) by {
        if sells_have_id(s.sells.subrange(0, n), s.buys[j].order_id) {
            let m = choose|m: int| 0 <= m < n && #[trigger] s.sells.subrange(0, n)[m].order_id == s.buys[j].order_id;
            assert(s.sells[m].order_id == s.buys[j].order_id);
        }
    }
    assert forall|i: int| 0 <= i < s.sells.len() implies (live_sell(s, i) <==> (i >= n && #[trigger] live_sell(t, i - n))) by {
        if i < n {
            assert(s.deleted.contains(s.sells[i].order_id));
        } else {
            assert(t.sells[i - n] == s.sells[i]);
        }
    }
    assert(live_sell_orders(t) =~= live_sell_orders(s)) by {
        assert forall|o: SellOrder| live_sell_orders(s).contains(o) implies live_sell_orders(t).contains(o) by {
            let i = choose|i: int| live_sell(s, i) && s.sells[i] == o;
            assert(live_sell(t, i - n) && t.sells[i - n] == o);
        }
        assert forall|o: SellOrder| live_sell_orders(t).contains(o) implies live_sell_orders(s).contains(o) by {
            let i = choose|i: int| live_sell(t, i) && t.sells[i] == o;
            assert(t.sells[i] == s.sells[i + n]);
            assert(live_sell(s, i + n));
        }
    }
    assert(live_buy_orders(t) =~= live_buy_orders(s)) by {
        assert forall|j: int| 0 <= j < s.buys.len() implies (#[trigger] live_buy(t, j) <==> live_buy(s, j)) by {
            assert(t.buys[j] == s.buys[j]);
        }
        assert forall|o: BuyOrder| live_buy_orders(s).contains(o) implies live_buy_orders(t).contains(o) by {
            let j = choose|j: int| live_buy(s, j) && s.buys[j] == o;
            assert(live_buy(t, j));
        }
        assert forall|o: BuyOrder| live_buy_orders(t).contains(o) implies live_buy_orders(s).contains(o) by {
            let j = choose|j: int| live_buy(t, j) && t.buys[j] == o;
            assert(live_buy(s, j));
        }
    }
    match p.0 {
        Some(b) => {
            assert(s.sells[n] == b);
            assert(live_sell(t, 0));
            assert(live_sell(s, n));
            assert forall|i: int| live_sell(s, i) implies s.sells[i].price >= b.price by {
                if i > n {
                    assert(!sell_outranks(s.sells[i], s.sells[n]));
                }
            }
        },
        None => {
            assert forall|i: int| !live_sell(s, i) by {
                if 0 <= i < s.sells.len() {
                    assert(s.deleted.contains(s.sells[i].order_id));
                }
            }
        },
    }
}

/// The shares that one log reports filled for order `id`.
pub open spec fn fill_of(log: OrderbookLog, id: OrderId) -> nat {
    match log {
        OrderbookLog::OrderLog(OrderResponse::OrderFill(f)) => if f.order_id == id {
            f.fill_size as nat
        } else {
            0
        },
        _ => 0,
    }
}

/// The shares that one log reports filled, for any order.
pub open spec fn fill_any(log: OrderbookLog) -> nat {
    match log {
        OrderbookLog::OrderLog(OrderResponse::OrderFill(f)) => f.fill_size as nat,
        _ => 0,
    }
}

/// The shares that `logs` report filled for order `id`.
pub open spec fn filled(logs: Seq<OrderbookLog>, id: OrderId) -> nat
    decreases logs.len(),
{
    if logs.len() == 0 {
        0
    } else {
        filled(logs.drop_last(), id) + fill_of(logs.last(), id)
    }
}

/// The shares that `logs` report filled, summed over all orders.
pub open spec fn total_filled(logs: Seq<OrderbookLog>) -> nat
    decreases logs.len(),
{
    if logs.len() == 0 {
        0
    } else {
        total_filled(logs.drop_last()) + fill_any(logs.last())
    }
}

/// Every fill in `logs` is at a price no higher than `limit`.
pub open spec fn fills_at_most(logs: Seq<OrderbookLog>, limit: u64) -> bool {
    forall|k: int|
        0 <= k < logs.len() ==> (#[trigger] logs[k] matches OrderbookLog::OrderLog(
            OrderResponse::OrderFill(f),
        ) ==> f.fill_price <= limit)
}

/// Every fill in `logs` is at a price no lower than `limit`.
pub open spec fn fills_at_least(logs: Seq<OrderbookLog>, limit: u64) -> bool {
    forall|k: int|
        0 <= k < logs.len() ==> (#[trigger] logs[k] matches OrderbookLog::OrderLog(
            OrderResponse::OrderFill(f),
        ) ==> f.fill_price >= limit)
}

proof fn lemma_filled_append(a: Seq<OrderbookLog>, b: Seq<OrderbookLog>, id: OrderId)
    ensures
        filled(a + b, id) == filled(a, id) + filled(b, id),
        total_filled(a + b) == total_filled(a) + total_filled(b),
    decreases b.len(),
{
    if b.len() > 0 {
        lemma_filled_append(a, b.drop_last(), id);
        assert((a + b).drop_last() =~= a + b.drop_last());
    } else {
        assert(a + b =~= a);
    }
}

proof fn lemma_fill_logs_filled(order_id: OrderId, size: u32, price: u64, ticker: Ticker, id: OrderId)
    ensures
        filled(fill_logs(order_id, size, price, ticker), id) == if order_id == id { size as nat } else { 0 },
        total_filled(fill_logs(order_id, size, price, ticker)) == size as nat,
{
    let l = fill_logs(order_id, size, price, ticker);
    reveal_with_fuel(filled, 3);
    reveal_with_fuel(total_filled, 3);
    assert(l.drop_last() =~= seq![l[0]]);
    assert(l.drop_last().drop_last() =~= Seq::<OrderbookLog>::empty());
}

/// Matching a buy order: the shares filled for it and the shares left open
/// add up to what was open, the resting orders are filled by as many shares
/// as the buy order, and no fill is above the buy order's price.
proof fn lemma_match_buy_fills(
    sells: Seq<SellOrder>,
    deleted: Set<OrderId>,
    req: NewOrderRequest,
    left: u32,
    ticker: Ticker,
)
    requires
        forall|k: int| 0 <= k < sells.len() ==> #[trigger] sells[k].order_id != req.order_id,
    ensures
        ({
            let r = match_buy(sells, deleted, req, left, ticker);
            &&& filled(r.2, req.order_id) + r.3 == left
            &&& total_filled(r.2) == 2 * filled(r.2, req.order_id)
            &&& fills_at_most(r.2, req.price)
        }),
    decreases sells.len(),
{
    if sells.len() > 0 {
        let b = sells[0];
        let rest = sells.drop_first();
        let id = req.order_id;
        if deleted.contains(b.order_id) {
            lemma_match_buy_fills(rest, deleted.remove(b.order_id), req, left, ticker);
        } else if b.price > req.price || left == 0 {
        } else if left < b.size {
            let l1 = fill_logs(b.order_id, left, b.price, ticker);
            let l2 = fill_logs(id, left, b.price, ticker);
            lemma_filled_append(l1, l2, id);
            lemma_fill_logs_filled(b.order_id, left, b.price, ticker, id);
            lemma_fill_logs_filled(id, left, b.price, ticker, id);
            assert(fills_at_most(l1 + l2, req.price)) by {
                assert forall|k: int| 0 <= k < (l1 + l2).len() implies (#[trigger] (l1 + l2)[k] matches OrderbookLog::OrderLog(
                    OrderResponse::OrderFill(f),
                ) ==> f.fill_price <= req.price) by {
                    if k < 2 {
                        assert((l1 + l2)[k] == l1[k]);
                    } else {
                        assert((l1 + l2)[k] == l2[k - 2]);
                    }
                }
            }
        } else {
            let r = match_buy(rest, deleted, req, (left - b.size) as u32, ticker);
            lemma_match_buy_fills(rest, deleted, req, (left - b.size) as u32, ticker);
            let l1 = fill_logs(b.order_id, b.size, b.price, ticker);
            let l2 = seq![crate::portal::orderbook::dead_log(b.order_id)];
            let l3 = fill_logs(id, b.size, b.price, ticker);
            lemma_fill_logs_filled(b.order_id, b.size, b.price, ticker, id);
            lemma_fill_logs_filled(id, b.size, b.price, ticker, id);
            assert(filled(l2, id) == 0 && total_filled(l2) == 0) by {
                reveal_with_fuel(filled, 2);
                reveal_with_fuel(total_filled, 2);
                assert(l2.drop_last() =~= Seq::<OrderbookLog>::empty());
            }
            lemma_filled_append(l1, l2, id);
            lemma_filled_append(l1 + l2, l3, id);
            lemma_filled_append(l1 + l2 + l3, r.2, id);
            let all = l1 + l2 + l3 + r.2;
            assert(fills_at_most(all, req.price)) by {
                assert forall|k: int| 0 <= k < all.len() implies (#[trigger] all[k] matches OrderbookLog::OrderLog(
                    OrderResponse::OrderFill(f),
                ) ==> f.fill_price <= req.price) by {
                    if k < 2 {
                        assert(all[k] == l1[k]);
                    } else if k == 2 {
                        assert(all[k] == l2[0]);
                    } else if k < 5 {
                        assert(all[k] == l3[k - 3]);
                    } else {
                        assert(all[k] == r.2[k - 5]);
                    }
                }
            }
        }
    }
}

/// Matching a sell order: the shares filled for it and the shares left open
/// add up to what was open, the resting orders are filled by as many shares
/// as the sell order, and no fill is below the buy order's price.
proof fn lemma_match_sell_fills(
    buys: Seq<BuyOrder>,
    deleted: Set<OrderId>,
    req: NewOrderRequest,
    left: u32,
    ticker: Ticker,
)
    requires
        forall|k: int| 0 <= k < buys.len() ==> #[trigger] buys[k].order_id != req.order_id,
    ensures
        ({
            let r = match_sell(buys, deleted, req, left, ticker);
            &&& filled(r.2, req.order_id) + r.3 == left
            &&& total_filled(r.2) == 2 * filled(r.2, req.order_id)
            &&& fills_at_least(r.2, req.price)
        }),
    decreases buys.len(),
{
    if buys.len() > 0 {
        let b = buys[0];
        let rest = buys.drop_first();
        let id = req.order_id;
        if deleted.contains(b.order_id) {
            lemma_match_sell_fills(rest, deleted.remove(b.order_id), req, left, ticker);
        } else if b.price < req.price || left == 0 {
        } else if left < b.size {
            let l1 = fill_logs(b.order_id, left, b.price, ticker);
            let l2 = fill_logs(id, left, b.price, ticker);
            lemma_filled_append(l1, l2, id);
            lemma_fill_logs_filled(b.order_id, left, b.price, ticker, id);
            lemma_fill_logs_filled(id, left, b.price, ticker, id);
            assert(fills_at_least(l1 + l2, req.price)) by {
                assert forall|k: int| 0 <= k < (l1 + l2).len() implies (#[trigger] (l1 + l2)[k] matches OrderbookLog::OrderLog(
                    OrderResponse::OrderFill(f),
                ) ==> f.fill_price >= req.price) by {
                    if k < 2 {
                        assert((l1 + l2)[k] == l1[k]);
                    } else {
                        assert((l1 + l2)[k] == l2[k - 2]);
                    }
                }
            }
        } else {
            let r = match_sell(rest, deleted, req, (left - b.size) as u32, ticker);
            lemma_match_sell_fills(rest, deleted, req, (left - b.size) as u32, ticker);
            let l1 = fill_logs(b.order_id, b.size, b.price, ticker);
            let l2 = seq![crate::portal::orderbook::dead_log(b.order_id)];
            let l3 = fill_logs(id, b.size, b.price, ticker);
            lemma_fill_logs_filled(b.order_id, b.size, b.price, ticker, id);
            lemma_fill_logs_filled(id, b.size, b.price, ticker, id);
            assert(filled(l2, id) == 0 && total_filled(l2) == 0) by {
                reveal_with_fuel(filled, 2);
                reveal_with_fuel(total_filled, 2);
                assert(l2.drop_last() =~= Seq::<OrderbookLog>::empty());
            }
            lemma_filled_append(l1, l2, id);
            lemma_filled_append(l1 + l2, l3, id);
            lemma_filled_append(l1 + l2 + l3, r.2, id);
            let all = l1 + l2 + l3 + r.2;
            assert(fills_at_least(all, req.price)) by {
                assert forall|k: int| 0 <= k < all.len() implies (#[trigger] all[k] matches OrderbookLog::OrderLog(
                    OrderResponse::OrderFill(f),
                ) ==> f.fill_price >= req.price) by {
                    if k < 2 {
                        assert(all[k] == l1[k]);
                    } else if k == 2 {
                        assert(all[k] == l2[0]);
                    } else if k < 5 {
                        assert(all[k] == l3[k - 3]);
                    } else {
                        assert(all[k] == r.2[k - 5]);
                    }
                }
            }
        }
    }
}


/// **Law: matching conserves shares and respects the limit.** For a new
/// order whose id does not rest in the book, the shares filled for it never
/// exceed its size; the resting orders it trades with are filled by exactly
/// as many shares; a buy never trades above its price and a sell never below;
/// and the last log either adds the order to the book with exactly its
/// unfilled shares, when a limit day order has shares left, or reports the
/// order dead.
pub proof fn law_new_order_fills(s: BookState, req: NewOrderRequest)
    requires
        id_fresh(s, req.order_id),
    ensures
        ({
            let logs = new_order_outcome(s, req).1;
            let f = filled(logs, req.order_id);
            &&& f <= req.size
            &&& total_filled(logs) == 2 * f
            &&& req.direction == crate::types::common::Direction::Buy ==> fills_at_most(logs, req.price)
            &&& req.direction == crate::types::common::Direction::Sell ==> fills_at_least(logs, req.price)
            &&& logs.len() > 0
            &&& logs.last() == if should_rest(req, (req.size - f) as u32) {
                added_log(req, (req.size - f) as u32, s.ticker)
            } else {
                dead_log(req.order_id)
            }
        }),
{
    let id = req.order_id;
    match req.direction {
        crate::types::common::Direction::Buy => {
            lemma_match_buy_fills(s.sells, s.deleted, req, req.size, s.ticker);
            let r = match_buy(s.sells, s.deleted, req, req.size, s.ticker);
            let logs = new_order_outcome(s, req).1;
            assert(logs.drop_last() =~= r.2);
            assert forall|k: int| 0 <= k < logs.len() implies (#[trigger] logs[k] matches OrderbookLog::OrderLog(
                OrderResponse::OrderFill(f),
            ) ==> f.fill_price <= req.price) by {
                if k < r.2.len() {
                    assert(logs[k] == r.2[k]);
                }
            }
        },
        crate::types::common::Direction::Sell => {
            lemma_match_sell_fills(s.buys, s.deleted, req, req.size, s.ticker);
            let r = match_sell(s.buys, s.deleted, req, req.size, s.ticker);
            let logs = new_order_outcome(s, req).1;
            assert(logs.drop_last() =~= r.2);
            assert forall|k: int| 0 <= k < logs.len() implies (#[trigger] logs[k] matches OrderbookLog::OrderLog(
                OrderResponse::OrderFill(f),
            ) ==> f.fill_price >= req.price) by {
                if k < r.2.len() {
                    assert(logs[k] == r.2[k]);
                }
            }
        },
    }
}


/// Every resting order carries an id in `ids`.
pub open spec fn book_ids_within(s: BookState, ids: Set<OrderId>) -> bool {
    &&& forall|i: int| 0 <= i < s.buys.len() ==> ids.contains(#[trigger] s.buys[i].order_id)
    &&& forall|j: int| 0 <= j < s.sells.len() ==> ids.contains(#[trigger] s.sells[j].order_id)
}

/// Every response in `logs` is about an order whose id is in `ids`.
pub open spec fn log_ids_within(logs: Seq<OrderbookLog>, ids: Set<OrderId>) -> bool {
    forall|k: int|
        0 <= k < logs.len() ==> (#[trigger] logs[k] matches OrderbookLog::OrderLog(r) ==> ids.contains(
            response_order_id(r),
        ))
}

/// The order id that a request brings.
pub open spec fn request_id(req: OrderbookRequest) -> OrderId {
    match req {
        OrderbookRequest::NewOrder(r) => r.order_id,
        OrderbookRequest::CancelOrder(c) => c.order_id,
    }
}

proof fn lemma_log_ids_append(a: Seq<OrderbookLog>, b: Seq<OrderbookLog>, ids: Set<OrderId>)
    requires
        log_ids_within(a, ids),
        log_ids_within(b, ids),
    ensures
        log_ids_within(a + b, ids),
{
    assert forall|k: int| 0 <= k < (a + b).len() implies (#[trigger] (a + b)[k] matches OrderbookLog::OrderLog(r) ==> ids.contains(
        response_order_id(r),
    )) by {
        if k < a.len() {
            assert((a + b)[k] == a[k]);
        } else {
            assert((a + b)[k] == b[k - a.len()]);
        }
    }
}

proof fn lemma_match_buy_log_ids(
    sells: Seq<SellOrder>,
    deleted: Set<OrderId>,
    req: NewOrderRequest,
    left: u32,
    ticker: Ticker,
    ids: Set<OrderId>,
)
    requires
        forall|j: int| 0 <= j < sells.len() ==> ids.contains(#[trigger] sells[j].order_id),
        ids.contains(req.order_id),
    ensures
        log_ids_within(match_buy(sells, deleted, req, left, ticker).2, ids),
    decreases sells.len(),
{
    if sells.len() > 0 {
        let b = sells[0];
        let rest = sells.drop_first();
        assert(ids.contains(sells[0].order_id));
        if deleted.contains(b.order_id) {
            lemma_match_buy_log_ids(rest, deleted.remove(b.order_id), req, left, ticker, ids);
        } else if b.price > req.price || left == 0 {
        } else if left < b.size {
            lemma_log_ids_append(fill_logs(b.order_id, left, b.price, ticker), fill_logs(req.order_id, left, b.price, ticker), ids);
        } else {
            let r = match_buy(rest, deleted, req, (left - b.size) as u32, ticker);
            lemma_match_buy_log_ids(rest, deleted, req, (left - b.size) as u32, ticker, ids);
            let l1 = fill_logs(b.order_id, b.size, b.price, ticker);
            let l2 = seq![dead_log(b.order_id)];
            let l3 = fill_logs(req.order_id, b.size, b.price, ticker);
            lemma_log_ids_append(l1, l2, ids);
            lemma_log_ids_append(l1 + l2, l3, ids);
            lemma_log_ids_append(l1 + l2 + l3, r.2, ids);
        }
    }
}

proof fn lemma_match_sell_log_ids(
    buys: Seq<BuyOrder>,
    deleted: Set<OrderId>,
    req: NewOrderRequest,
    left: u32,
    ticker: Ticker,
    ids: Set<OrderId>,
)
    requires
        forall|j: int| 0 <= j < buys.len() ==> ids.contains(#[trigger] buys[j].order_id),
        ids.contains(req.order_id),
    ensures
        log_ids_within(match_sell(buys, deleted, req, left, ticker).2, ids),
    decreases buys.len(),
{
    if buys.len() > 0 {
        let b = buys[0];
        let rest = buys.drop_first();
        assert(ids.contains(buys[0].order_id));
        if deleted.contains(b.order_id) {
            lemma_match_sell_log_ids(rest, deleted.remove(b.order_id), req, left, ticker, ids);
        } else if b.price < req.price || left == 0 {
        } else if left < b.size {
            lemma_log_ids_append(fill_logs(b.order_id, left, b.price, ticker), fill_logs(req.order_id, left, b.price, ticker), ids);
        } else {
            let r = match_sell(rest, deleted, req, (left - b.size) as u32, ticker);
            lemma_match_sell_log_ids(rest, deleted, req, (left - b.size) as u32, ticker, ids);
            let l1 = fill_logs(b.order_id, b.size, b.price, ticker);
            let l2 = seq![dead_log(b.order_id)];
            let l3 = fill_logs(req.order_id, b.size, b.price, ticker);
            lemma_log_ids_append(l1, l2, ids);
            lemma_log_ids_append(l1 + l2, l3, ids);
            lemma_log_ids_append(l1 + l2 + l3, r.2, ids);
        }
    }
}

/// **Law: a book only ever holds and reports orders it was given.** If
/// every resting order's id is in `ids` and so is the id a request brings,
/// then afterwards every resting order's id is still in `ids` and every
/// response the book reports is about an order whose id is in `ids`.
pub proof fn law_request_ids(s: BookState, req: OrderbookRequest, ids: Set<OrderId>)
    requires
        book_wf(s),
        book_ids_within(s, ids),
        ids.contains(request_id(req)),
    ensures
        book_ids_within(request_outcome(s, req).0, ids),
        log_ids_within(request_outcome(s, req).1, ids),
{
    match req {
        OrderbookRequest::NewOrder(r) => {
            let t = request_outcome(s, req).0;
            let logs = request_outcome(s, req).1;
            match r.direction {
                crate::types::common::Direction::Buy => {
                    let m = match_buy(s.sells, s.deleted, r, r.size, s.ticker);
                    lemma_match_buy_shape(s.sells, s.deleted, r, r.size, s.ticker);
                    lemma_match_buy_log_ids(s.sells, s.deleted, r, r.size, s.ticker, ids);
                    let d = s.sells.len() - m.0.len();
                    assert forall|j: int| 0 <= j < t.sells.len() implies ids.contains(#[trigger] t.sells[j].order_id) by {
                        if j > 0 {
                            assert(m.0[j] == s.sells[j + d]);
                        }
                        assert(ids.contains(s.sells[j + d].order_id));
                    }
                    let o = BuyOrder { order_id: r.order_id, size: m.3, price: r.price, timestamp: r.timestamp };
                    lemma_buy_slot_facts(s.buys, o);
                    let k = buy_slot(s.buys, o) as int;
                    assert forall|i: int| 0 <= i < t.buys.len() implies ids.contains(#[trigger] t.buys[i].order_id) by {
                        if should_rest(r, m.3) {
                            if i < k {
                                assert(t.buys[i] == s.buys[i]);
                            } else if i > k {
                                assert(t.buys[i] == s.buys[i - 1]);
                            }
                        } else {
                            assert(t.buys[i] == s.buys[i]);
                        }
                    }
                    assert(logs.drop_last() == m.2);
                    assert forall|k2: int| 0 <= k2 < logs.len() implies (#[trigger] logs[k2] matches OrderbookLog::OrderLog(x) ==> ids.contains(
                        response_order_id(x),
                    )) by {
                        if k2 < m.2.len() {
                            assert(logs[k2] == m.2[k2]);
                        }
                    }
                },
                crate::types::common::Direction::Sell => {
                    let m = match_sell(s.buys, s.deleted, r, r.size, s.ticker);
                    lemma_match_sell_shape(s.buys, s.deleted, r, r.size, s.ticker);
                    lemma_match_sell_log_ids(s.buys, s.deleted, r, r.size, s.ticker, ids);
                    let d = s.buys.len() - m.0.len();
                    assert forall|j: int| 0 <= j < t.buys.len() implies ids.contains(#[trigger] t.buys[j].order_id) by {
                        if j > 0 {
                            assert(m.0[j] == s.buys[j + d]);
                        }
                        assert(ids.contains(s.buys[j + d].order_id));
                    }
                    let o = SellOrder { order_id: r.order_id, size: m.3, price: r.price, timestamp: r.timestamp };
                    lemma_sell_slot_facts(s.sells, o);
                    let k = sell_slot(s.sells, o) as int;
                    assert forall|i: int| 0 <= i < t.sells.len() implies ids.contains(#[trigger] t.sells[i].order_id) by {
                        if should_rest(r, m.3) {
                            if i < k {
                                assert(t.sells[i] == s.sells[i]);
                            } else if i > k {
                                assert(t.sells[i] == s.sells[i - 1]);
                            }
                        } else {
                            assert(t.sells[i] == s.sells[i]);
                        }
                    }
                    assert(logs.drop_last() == m.2);
                    assert forall|k2: int| 0 <= k2 < logs.len() implies (#[trigger] logs[k2] matches OrderbookLog::OrderLog(x) ==> ids.contains(
                        response_order_id(x),
                    )) by {
                        if k2 < m.2.len() {
                            assert(logs[k2] == m.2[k2]);
                        }
                    }
                },
            }
        },
        OrderbookRequest::CancelOrder(c) => {
            let logs = request_outcome(s, req).1;
            assert forall|k2: int| 0 <= k2 < logs.len() implies (#[trigger] logs[k2] matches OrderbookLog::OrderLog(x) ==> ids.contains(
                response_order_id(x),
            )) by {
            }
        },
    }
}

/// Looking up a best price keeps every resting order's id in `ids`.
pub proof fn lemma_best_price_ids(s: BookState, ids: Set<OrderId>)
    requires
        book_ids_within(s, ids),
    ensures
        book_ids_within(best_buy_outcome(s).1, ids),
        book_ids_within(best_sell_outcome(s).1, ids),
{
    lemma_pop_live_buy(s.buys, s.deleted);
    lemma_pop_live_sell(s.sells, s.deleted);
    let pb = pop_live_buy(s.buys, s.deleted);
    let ps = pop_live_sell(s.sells, s.deleted);
    let tb = best_buy_outcome(s).1;
    let ts = best_sell_outcome(s).1;
    assert forall|i: int| 0 <= i < tb.buys.len() implies ids.contains(#[trigger] tb.buys[i].order_id) by {
        let n = s.buys.len() - tb.buys.len();
        if pb.0 is Some {
            if i > 0 {
                assert(tb.buys[i] == pb.1[i - 1]);
            }
        } else {
            assert(tb.buys[i] == pb.1[i]);
        }
        assert(tb.buys[i] == s.buys[i + n]);
    }
    assert forall|j: int| 0 <= j < ts.sells.len() implies ids.contains(#[trigger] ts.sells[j].order_id) by {
        let n = s.sells.len() - ts.sells.len();
        if ps.0 is Some {
            if j > 0 {
                assert(ts.sells[j] == ps.1[j - 1]);
            }
        } else {
            assert(ts.sells[j] == ps.1[j]);
        }
        assert(ts.sells[j] == s.sells[j + n]);
    }
}
} // verus!

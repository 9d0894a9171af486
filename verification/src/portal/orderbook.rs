//! The order book of one ticker: resting buy and sell orders kept in
//! price-time priority, matching of incoming orders, and cancellation.
//!
//! Cancellation is lazy: a cancelled order id is remembered, and the order
//! is discarded when it reaches the front of its side.

use vstd::prelude::*;
use crate::types::common::{Direction, LimitOrMarket, OrderId, Price, Size, Ticker, TimeInForce};
use crate::types::event::{Event, OrderAdded, OrderExecuted, OrderRemoved};
use crate::types::order::{BuyOrder, SellOrder, buy_outranks, sell_outranks};
use crate::types::orderbook::{
    CancelOrderRequest, NewOrderRequest, OrderDeadResponse, OrderFillResponse, OrderbookLog,
    OrderbookRequest,
};
use crate::types::portal::OrderResponse;
use std::collections::HashSet;

verus! {

broadcast use vstd::std_specs::hash::group_hash_axioms;

/// The abstract state of an order book.
pub struct BookState {
    pub ticker: Ticker,
    /// Resting buy orders, best first.
    pub buys: Seq<BuyOrder>,
    /// Resting sell orders, best first.
    pub sells: Seq<SellOrder>,
    /// Ids of cancelled orders that have not been discarded yet.
    pub deleted: Set<OrderId>,
}

/// Each buy order ranks at least as high as every buy order behind it.
pub open spec fn buys_sorted(s: Seq<BuyOrder>) -> bool {
    forall|i: int, j: int|
        #![trigger s[i], s[j]]
        0 <= i < j < s.len() ==> !buy_outranks(s[j], s[i])
}

/// Each sell order ranks at least as high as every sell order behind it.
pub open spec fn sells_sorted(s: Seq<SellOrder>) -> bool {
    forall|i: int, j: int|
        #![trigger s[i], s[j]]
        0 <= i < j < s.len() ==> !sell_outranks(s[j], s[i])
}

/// Both sides are in priority order and every resting order has shares left.
pub open spec fn book_wf(s: BookState) -> bool {
    &&& buys_sorted(s.buys)
    &&& sells_sorted(s.sells)
    &&& forall|i: int| 0 <= i < s.buys.len() ==> #[trigger] s.buys[i].size > 0
    &&& forall|i: int| 0 <= i < s.sells.len() ==> #[trigger] s.sells[i].size > 0
}

/// Takes the best buy order that is not cancelled off the front, discarding
/// the cancelled orders in front of it and forgetting their ids.
/// Returns the order, the remaining buy orders and the remaining cancelled ids.
pub open spec fn pop_live_buy(buys: Seq<BuyOrder>, deleted: Set<OrderId>) -> (Option<BuyOrder>, Seq<BuyOrder>, Set<OrderId>)
    decreases buys.len(),
{
    if buys.len() == 0 {
        (None, buys, deleted)
    } else if deleted.contains(buys[0].order_id) {
        pop_live_buy(buys.drop_first(), deleted.remove(buys[0].order_id))
    } else {
        (Some(buys[0]), buys.drop_first(), deleted)
    }
}

/// The sell-side counterpart of `pop_live_buy`.
pub open spec fn pop_live_sell(sells: Seq<SellOrder>, deleted: Set<OrderId>) -> (Option<SellOrder>, Seq<SellOrder>, Set<OrderId>)
    decreases sells.len(),
{
    if sells.len() == 0 {
        (None, sells, deleted)
    } else if deleted.contains(sells[0].order_id) {
        pop_live_sell(sells.drop_first(), deleted.remove(sells[0].order_id))
    } else {
        (Some(sells[0]), sells.drop_first(), deleted)
    }
}

/// The position at which a new buy order is inserted: behind every order
/// that it does not outrank.
pub open spec fn buy_slot(s: Seq<BuyOrder>, o: BuyOrder) -> nat
    decreases s.len(),
{
    if s.len() == 0 {
        0
    } else if buy_outranks(o, s[0]) {
        0
    } else {
        1 + buy_slot(s.drop_first(), o)
    }
}

/// The position at which a new sell order is inserted: behind every order
/// that it does not outrank.
pub open spec fn sell_slot(s: Seq<SellOrder>, o: SellOrder) -> nat
    decreases s.len(),
{
    if s.len() == 0 {
        0
    } else if sell_outranks(o, s[0]) {
        0
    } else {
        1 + sell_slot(s.drop_first(), o)
    }
}

pub open spec fn insert_buy(s: Seq<BuyOrder>, o: BuyOrder) -> Seq<BuyOrder> {
    s.insert(buy_slot(s, o) as int, o)
}

pub open spec fn insert_sell(s: Seq<SellOrder>, o: SellOrder) -> Seq<SellOrder> {
    s.insert(sell_slot(s, o) as int, o)
}

/// The two logs of one side of a trade: the fill for the owner and the
/// public execution event.
pub open spec fn fill_logs(order_id: OrderId, size: Size, price: Price, ticker: Ticker) -> Seq<OrderbookLog> {
    seq![
        OrderbookLog::OrderLog(OrderResponse::OrderFill(OrderFillResponse {
            order_id,
            fill_size: size,
            fill_price: price,
        })),
        OrderbookLog::EventLog(Event::OrderExecuted(OrderExecuted {
            order_id,
            ticker,
            execution_size: size,
            execution_price: price,
        })),
    ]
}

pub open spec fn dead_log(order_id: OrderId) -> OrderbookLog {
    OrderbookLog::OrderLog(OrderResponse::OrderDead(OrderDeadResponse { order_id }))
}

pub open spec fn added_log(req: NewOrderRequest, resting: Size, ticker: Ticker) -> OrderbookLog {
    OrderbookLog::EventLog(Event::OrderAdded(OrderAdded {
        order_id: req.order_id,
        ticker,
        direction: req.direction,
        resting_size: resting,
        limit_price: req.price,
    }))
}

/// Matches an incoming buy order with `left` shares still open against the
/// sell side, best sell first, for as long as the best sell asks no more
/// than the buy's price. Each trade is at the resting order's price and for
/// the smaller of the two open sizes. Returns the sell side, the cancelled
/// ids, the logs and the shares of the buy order left open.
pub open spec fn match_buy(
    sells: Seq<SellOrder>,
    deleted: Set<OrderId>,
    req: NewOrderRequest,
    left: Size,
    ticker: Ticker,
) -> (Seq<SellOrder>, Set<OrderId>, Seq<OrderbookLog>, Size)
    decreases sells.len(),
{
    if sells.len() == 0 {
        (sells, deleted, seq![], left)
    } else {
        let b = sells[0];
        if deleted.contains(b.order_id) {
            match_buy(sells.drop_first(), deleted.remove(b.order_id), req, left, ticker)
        } else if b.price > req.price || left == 0 {
            (sells, deleted, seq![], left)
        } else if left < b.size {
            (
                sells.update(0, SellOrder { size: (b.size - left) as Size, ..b }),
                deleted,
                fill_logs(b.order_id, left, b.price, ticker) + fill_logs(req.order_id, left, b.price, ticker),
                0,
            )
        } else {
            let r = match_buy(sells.drop_first(), deleted, req, (left - b.size) as Size, ticker);
            (
                r.0,
                r.1,
                fill_logs(b.order_id, b.size, b.price, ticker) + seq![dead_log(b.order_id)]
                    + fill_logs(req.order_id, b.size, b.price, ticker) + r.2,
                r.3,
            )
        }
    }
}

/// The mirror image of `match_buy` for an incoming sell order.
pub open spec fn match_sell(
    buys: Seq<BuyOrder>,
    deleted: Set<OrderId>,
    req: NewOrderRequest,
    left: Size,
    ticker: Ticker,
) -> (Seq<BuyOrder>, Set<OrderId>, Seq<OrderbookLog>, Size)
    decreases buys.len(),
{
    if buys.len() == 0 {
        (buys, deleted, seq![], left)
    } else {
        let b = buys[0];
        if deleted.contains(b.order_id) {
            match_sell(buys.drop_first(), deleted.remove(b.order_id), req, left, ticker)
        } else if b.price < req.price || left == 0 {
            (buys, deleted, seq![], left)
        } else if left < b.size {
            (
                buys.update(0, BuyOrder { size: (b.size - left) as Size, ..b }),
                deleted,
                fill_logs(b.order_id, left, b.price, ticker) + fill_logs(req.order_id, left, b.price, ticker),
                0,
            )
        } else {
            let r = match_sell(buys.drop_first(), deleted, req, (left - b.size) as Size, ticker);
            (
                r.0,
                r.1,
                fill_logs(b.order_id, b.size, b.price, ticker) + seq![dead_log(b.order_id)]
                    + fill_logs(req.order_id, b.size, b.price, ticker) + r.2,
                r.3,
            )
        }
    }
}

/// Whether the part of a new order left open after matching rests in the
/// book: only a limit day order with shares left does.
pub open spec fn should_rest(req: NewOrderRequest, left: Size) -> bool {
    left > 0 && req.limit_or_market == LimitOrMarket::Limit && req.time_in_force == TimeInForce::Day
}

/// The book and logs after a new buy order.
pub open spec fn new_buy_outcome(s: BookState, req: NewOrderRequest) -> (BookState, Seq<OrderbookLog>) {
    let r = match_buy(s.sells, s.deleted, req, req.size, s.ticker);
    if should_rest(req, r.3) {
        (
            BookState {
                buys: insert_buy(
                    s.buys,
                    BuyOrder { order_id: req.order_id, size: r.3, price: req.price, timestamp: req.timestamp },
                ),
                sells: r.0,
                deleted: r.1,
                ..s
            },
            r.2.push(added_log(req, r.3, s.ticker)),
        )
    } else {
        (BookState { sells: r.0, deleted: r.1, ..s }, r.2.push(dead_log(req.order_id)))
    }
}

/// The book and logs after a new sell order.
pub open spec fn new_sell_outcome(s: BookState, req: NewOrderRequest) -> (BookState, Seq<OrderbookLog>) {
    let r = match_sell(s.buys, s.deleted, req, req.size, s.ticker);
    if should_rest(req, r.3) {
        (
            BookState {
                sells: insert_sell(
                    s.sells,
                    SellOrder { order_id: req.order_id, size: r.3, price: req.price, timestamp: req.timestamp },
                ),
                buys: r.0,
                deleted: r.1,
                ..s
            },
            r.2.push(added_log(req, r.3, s.ticker)),
        )
    } else {
        (BookState { buys: r.0, deleted: r.1, ..s }, r.2.push(dead_log(req.order_id)))
    }
}

pub open spec fn new_order_outcome(s: BookState, req: NewOrderRequest) -> (BookState, Seq<OrderbookLog>) {
    match req.direction {
        Direction::Buy => new_buy_outcome(s, req),
        Direction::Sell => new_sell_outcome(s, req),
    }
}

/// The book and logs after a cancellation: the id is remembered as
/// cancelled, and the order is reported dead and removed.
pub open spec fn cancel_outcome(s: BookState, req: CancelOrderRequest) -> (BookState, Seq<OrderbookLog>) {
    (
        BookState { deleted: s.deleted.insert(req.order_id), ..s },
        seq![
            dead_log(req.order_id),
            OrderbookLog::EventLog(Event::OrderRemoved(OrderRemoved { order_id: req.order_id })),
        ],
    )
}

pub open spec fn request_outcome(s: BookState, req: OrderbookRequest) -> (BookState, Seq<OrderbookLog>) {
    match req {
        OrderbookRequest::NewOrder(r) => new_order_outcome(s, r),
        OrderbookRequest::CancelOrder(r) => cancel_outcome(s, r),
    }
}

/// The best buy price and the book after looking it up: cancelled orders in
/// front of the best live buy order are discarded.
pub open spec fn best_buy_outcome(s: BookState) -> (Option<Price>, BookState) {
    let r = pop_live_buy(s.buys, s.deleted);
    match r.0 {
        Some(b) => (Some(b.price), BookState { buys: seq![b] + r.1, deleted: r.2, ..s }),
        None => (None, BookState { buys: r.1, deleted: r.2, ..s }),
    }
}

/// The best sell price and the book after looking it up.
pub open spec fn best_sell_outcome(s: BookState) -> (Option<Price>, BookState) {
    let r = pop_live_sell(s.sells, s.deleted);
    match r.0 {
        Some(b) => (Some(b.price), BookState { sells: seq![b] + r.1, deleted: r.2, ..s }),
        None => (None, BookState { sells: r.1, deleted: r.2, ..s }),
    }
}

// ---------------------------------------------------------------------------
// Lemmas about the spec functions above.
// ---------------------------------------------------------------------------

/// What `pop_live_buy` leaves behind is a suffix of what it started from,
/// and the order it returns is not cancelled and stands right before it.
pub proof fn lemma_pop_live_buy(buys: Seq<BuyOrder>, deleted: Set<OrderId>)
    ensures
        ({
            let r = pop_live_buy(buys, deleted);
            &&& r.1.len() <= buys.len()
            &&& r.1 == buys.subrange(buys.len() - r.1.len(), buys.len() as int)
            &&& r.2.subset_of(deleted)
            &&& match r.0 {
                None => r.1.len() == 0,
                Some(b) => {
                    &&& r.1.len() < buys.len()
                    &&& buys[buys.len() - r.1.len() - 1] == b
                    &&& !r.2.contains(b.order_id)
                },
            }
        }),
    decreases buys.len(),
{
    if buys.len() > 0 {
        if deleted.contains(buys[0].order_id) {
            lemma_pop_live_buy(buys.drop_first(), deleted.remove(buys[0].order_id));
            let r = pop_live_buy(buys.drop_first(), deleted.remove(buys[0].order_id));
            assert(r.1 =~= buys.subrange(buys.len() - r.1.len(), buys.len() as int));
        } else {
            assert(buys.drop_first() =~= buys.subrange(1, buys.len() as int));
        }
    } else {
        assert(buys =~= buys.subrange(0, 0));
    }
}

/// The sell-side counterpart of `lemma_pop_live_buy`.
pub proof fn lemma_pop_live_sell(sells: Seq<SellOrder>, deleted: Set<OrderId>)
    ensures
        ({
            let r = pop_live_sell(sells, deleted);
            &&& r.1.len() <= sells.len()
            &&& r.1 == sells.subrange(sells.len() - r.1.len(), sells.len() as int)
            &&& r.2.subset_of(deleted)
            &&& match r.0 {
                None => r.1.len() == 0,
                Some(b) => {
                    &&& r.1.len() < sells.len()
                    &&& sells[sells.len() - r.1.len() - 1] == b
                    &&& !r.2.contains(b.order_id)
                },
            }
        }),
    decreases sells.len(),
{
    if sells.len() > 0 {
        if deleted.contains(sells[0].order_id) {
            lemma_pop_live_sell(sells.drop_first(), deleted.remove(sells[0].order_id));
            let r = pop_live_sell(sells.drop_first(), deleted.remove(sells[0].order_id));
            assert(r.1 =~= sells.subrange(sells.len() - r.1.len(), sells.len() as int));
        } else {
            assert(sells.drop_first() =~= sells.subrange(1, sells.len() as int));
        }
    } else {
        assert(sells =~= sells.subrange(0, 0));
    }
}


/// Matching first discards the cancelled orders in front of the best live
/// sell order, exactly as `pop_live_sell` does.
pub proof fn lemma_match_buy_pop(
    sells: Seq<SellOrder>,
    deleted: Set<OrderId>,
    req: NewOrderRequest,
    left: Size,
    ticker: Ticker,
)
    ensures
        ({
            let p = pop_live_sell(sells, deleted);
            match p.0 {
                None => match_buy(sells, deleted, req, left, ticker) == (
                    p.1,
                    p.2,
                    Seq::<OrderbookLog>::empty(),
                    left,
                ),
                Some(b) => match_buy(sells, deleted, req, left, ticker) == match_buy(
                    seq![b] + p.1,
                    p.2,
                    req,
                    left,
                    ticker,
                ),
            }
        }),
    decreases sells.len(),
{
    if sells.len() > 0 {
        if deleted.contains(sells[0].order_id) {
            lemma_match_buy_pop(sells.drop_first(), deleted.remove(sells[0].order_id), req, left, ticker);
        } else {
            assert(seq![sells[0]] + sells.drop_first() =~= sells);
        }
    }
}

/// Matching first discards the cancelled orders in front of the best live
/// buy order, exactly as `pop_live_buy` does.
pub proof fn lemma_match_sell_pop(
    buys: Seq<BuyOrder>,
    deleted: Set<OrderId>,
    req: NewOrderRequest,
    left: Size,
    ticker: Ticker,
)
    ensures
        ({
            let p = pop_live_buy(buys, deleted);
            match p.0 {
                None => match_sell(buys, deleted, req, left, ticker) == (
                    p.1,
                    p.2,
                    Seq::<OrderbookLog>::empty(),
                    left,
                ),
                Some(b) => match_sell(buys, deleted, req, left, ticker) == match_sell(
                    seq![b] + p.1,
                    p.2,
                    req,
                    left,
                    ticker,
                ),
            }
        }),
    decreases buys.len(),
{
    if buys.len() > 0 {
        if deleted.contains(buys[0].order_id) {
            lemma_match_sell_pop(buys.drop_first(), deleted.remove(buys[0].order_id), req, left, ticker);
        } else {
            assert(seq![buys[0]] + buys.drop_first() =~= buys);
        }
    }
}

/// `buy_slot` is the first position whose order the new order outranks.
pub proof fn lemma_buy_slot(s: Seq<BuyOrder>, o: BuyOrder, i: int)
    requires
        0 <= i <= s.len(),
        forall|j: int| 0 <= j < i ==> !buy_outranks(o, #[trigger] s[j]),
        i == s.len() || buy_outranks(o, s[i]),
    ensures
        buy_slot(s, o) == i,
    decreases s.len(),
{
    if s.len() > 0 && i > 0 {
        assert forall|j: int| 0 <= j < i - 1 implies !buy_outranks(o, #[trigger] s.drop_first()[j]) by {
            assert(s.drop_first()[j] == s[j + 1]);
        }
        lemma_buy_slot(s.drop_first(), o, i - 1);
    }
}

/// `sell_slot` is the first position whose order the new order outranks.
pub proof fn lemma_sell_slot(s: Seq<SellOrder>, o: SellOrder, i: int)
    requires
        0 <= i <= s.len(),
        forall|j: int| 0 <= j < i ==> !sell_outranks(o, #[trigger] s[j]),
        i == s.len() || sell_outranks(o, s[i]),
    ensures
        sell_slot(s, o) == i,
    decreases s.len(),
{
    if s.len() > 0 && i > 0 {
        assert forall|j: int| 0 <= j < i - 1 implies !sell_outranks(o, #[trigger] s.drop_first()[j]) by {
            assert(s.drop_first()[j] == s[j + 1]);
        }
        lemma_sell_slot(s.drop_first(), o, i - 1);
    }
}

/// The slot of a new buy order: behind every order it does not outrank, in
/// front of the first one it does.
pub proof fn lemma_buy_slot_facts(s: Seq<BuyOrder>, o: BuyOrder)
    ensures
        buy_slot(s, o) <= s.len(),
        forall|j: int| 0 <= j < buy_slot(s, o) ==> !buy_outranks(o, #[trigger] s[j]),
        buy_slot(s, o) < s.len() ==> buy_outranks(o, s[buy_slot(s, o) as int]),
    decreases s.len(),
{
    if s.len() > 0 && !buy_outranks(o, s[0]) {
        lemma_buy_slot_facts(s.drop_first(), o);
        assert forall|j: int| 0 <= j < buy_slot(s, o) implies !buy_outranks(o, #[trigger] s[j]) by {
            if j > 0 {
                assert(s[j] == s.drop_first()[j - 1]);
            }
        }
    }
}

/// The slot of a new sell order: behind every order it does not outrank, in
/// front of the first one it does.
pub proof fn lemma_sell_slot_facts(s: Seq<SellOrder>, o: SellOrder)
    ensures
        sell_slot(s, o) <= s.len(),
        forall|j: int| 0 <= j < sell_slot(s, o) ==> !sell_outranks(o, #[trigger] s[j]),
        sell_slot(s, o) < s.len() ==> sell_outranks(o, s[sell_slot(s, o) as int]),
    decreases s.len(),
{
    if s.len() > 0 && !sell_outranks(o, s[0]) {
        lemma_sell_slot_facts(s.drop_first(), o);
        assert forall|j: int| 0 <= j < sell_slot(s, o) implies !sell_outranks(o, #[trigger] s[j]) by {
            if j > 0 {
                assert(s[j] == s.drop_first()[j - 1]);
            }
        }
    }
}

/// Inserting at the slot keeps the buy side in priority order.
pub proof fn lemma_insert_buy_sorted(s: Seq<BuyOrder>, o: BuyOrder)
    requires
        buys_sorted(s),
    ensures
        buys_sorted(insert_buy(s, o)),
{
    lemma_buy_slot_facts(s, o);
    let k = buy_slot(s, o) as int;
    let t = insert_buy(s, o);
    assert forall|i: int, j: int| 0 <= i < j < t.len() implies !buy_outranks(#[trigger] t[j], #[trigger] t[i]) by {
        if j < k {
            assert(t[i] == s[i] && t[j] == s[j]);
        } else if j == k {
            assert(t[i] == s[i]);
        } else if i < k {
            assert(t[i] == s[i] && t[j] == s[j - 1]);
        } else if i == k {
            assert(t[j] == s[j - 1]);
            assert(!buy_outranks(s[j - 1], s[k]) || j - 1 == k);
        } else {
            assert(t[i] == s[i - 1] && t[j] == s[j - 1]);
        }
    }
}

/// Inserting at the slot keeps the sell side in priority order.
pub proof fn lemma_insert_sell_sorted(s: Seq<SellOrder>, o: SellOrder)
    requires
        sells_sorted(s),
    ensures
        sells_sorted(insert_sell(s, o)),
{
    lemma_sell_slot_facts(s, o);
    let k = sell_slot(s, o) as int;
    let t = insert_sell(s, o);
    assert forall|i: int, j: int| 0 <= i < j < t.len() implies !sell_outranks(#[trigger] t[j], #[trigger] t[i]) by {
        if j < k {
            assert(t[i] == s[i] && t[j] == s[j]);
        } else if j == k {
            assert(t[i] == s[i]);
        } else if i < k {
            assert(t[i] == s[i] && t[j] == s[j - 1]);
        } else if i == k {
            assert(t[j] == s[j - 1]);
            assert(!sell_outranks(s[j - 1], s[k]) || j - 1 == k);
        } else {
            assert(t[i] == s[i - 1] && t[j] == s[j - 1]);
        }
    }
}


// ---------------------------------------------------------------------------
// The order book.
// ---------------------------------------------------------------------------

/// The order book of one ticker.
pub struct OrderBook {
    ticker: Ticker,
    buy_orders: Vec<BuyOrder>,
    sell_orders: Vec<SellOrder>,
    lazy_deleted: HashSet<OrderId>,
}

impl View for OrderBook {
    type V = BookState;

    closed spec fn view(&self) -> BookState {
        BookState {
            ticker: self.ticker,
            buys: self.buy_orders@,
            sells: self.sell_orders@,
            deleted: self.lazy_deleted@,
        }
    }
}

impl OrderBook {
    pub open spec fn wf(&self) -> bool {
        book_wf(self@)
    }

    /// An empty book for `ticker`.
    pub fn new(ticker: Ticker) -> (book: OrderBook)
        ensures
            book.wf(),
            book@ == (BookState {
                ticker,
                buys: Seq::empty(),
                sells: Seq::empty(),
                deleted: Set::empty(),
            }),
    {
        OrderBook {
            ticker,
            buy_orders: Vec::new(),
            sell_orders: Vec::new(),
            lazy_deleted: HashSet::new(),
        }
    }

    /// Takes the best live buy order off the book.
    fn get_best_buy_order(&mut self) -> (best: Option<BuyOrder>)
        ensures
            ({
                let p = pop_live_buy(old(self)@.buys, old(self)@.deleted);
                &&& best == p.0
                &&& final(self)@ == BookState { buys: p.1, deleted: p.2, ..old(self)@ }
            }),
    {
        loop
            invariant
                self@.ticker == old(self)@.ticker,
                self@.sells == old(self)@.sells,
                pop_live_buy(old(self)@.buys, old(self)@.deleted) == pop_live_buy(self@.buys, self@.deleted),
            decreases self@.buys.len(),
        {
            if self.buy_orders.len() == 0 {
                return None;
            }
            let ghost prev = self.buy_orders@;
            let best = self.buy_orders.remove(0);
            assert(self.buy_orders@ =~= prev.drop_first());
            if !self.lazy_deleted.contains(&best.order_id) {
                return Some(best);
            }
            self.lazy_deleted.remove(&best.order_id);
        }
    }

    /// Takes the best live sell order off the book.
    fn get_best_sell_order(&mut self) -> (best: Option<SellOrder>)
        ensures
            ({
                let p = pop_live_sell(old(self)@.sells, old(self)@.deleted);
                &&& best == p.0
                &&& final(self)@ == BookState { sells: p.1, deleted: p.2, ..old(self)@ }
            }),
    {
        loop
            invariant
                self@.ticker == old(self)@.ticker,
                self@.buys == old(self)@.buys,
                pop_live_sell(old(self)@.sells, old(self)@.deleted) == pop_live_sell(self@.sells, self@.deleted),
            decreases self@.sells.len(),
        {
            if self.sell_orders.len() == 0 {
                return None;
            }
            let ghost prev = self.sell_orders@;
            let best = self.sell_orders.remove(0);
            assert(self.sell_orders@ =~= prev.drop_first());
            if !self.lazy_deleted.contains(&best.order_id) {
                return Some(best);
            }
            self.lazy_deleted.remove(&best.order_id);
        }
    }

    /// The fill and the execution event of one side of a trade.
    fn generate_trade_log(&self, order_id: OrderId, fill_size: Size, fill_price: Price) -> (logs: Vec<OrderbookLog>)
        ensures
            logs@ == fill_logs(order_id, fill_size, fill_price, self@.ticker),
    {
        let mut logs: Vec<OrderbookLog> = Vec::new();
        logs.push(OrderbookLog::OrderLog(OrderResponse::OrderFill(OrderFillResponse {
            order_id,
            fill_size,
            fill_price,
        })));
        logs.push(OrderbookLog::EventLog(Event::OrderExecuted(OrderExecuted {
            order_id,
            ticker: self.ticker.clone(),
            execution_size: fill_size,
            execution_price: fill_price,
        })));
        assert(logs@ =~= fill_logs(order_id, fill_size, fill_price, self@.ticker));
        logs
    }

    /// Inserts a buy order behind every order that it does not outrank.
    fn insert_buy_order(&mut self, order: BuyOrder)
        requires
            book_wf(old(self)@),
            order.size > 0,
        ensures
            final(self)@ == (BookState { buys: insert_buy(old(self)@.buys, order), ..old(self)@ }),
            book_wf(final(self)@),
    {
        let mut i: usize = 0;
        let n: usize = self.buy_orders.len();
        while i < n
            invariant
                i <= n == self.buy_orders@.len(),
                forall|j: int| 0 <= j < i ==> !buy_outranks(order, #[trigger] self.buy_orders@[j]),
            ensures
                i == n || buy_outranks(order, self.buy_orders@[i as int]),
            decreases n - i,
        {
            let o = self.buy_orders[i];
            if order.price > o.price || (order.price == o.price && order.timestamp < o.timestamp) {
                break;
            }
            i = i + 1;
        }
        proof {
            lemma_buy_slot(self.buy_orders@, order, i as int);
            lemma_insert_buy_sorted(self.buy_orders@, order);
        }
        self.buy_orders.insert(i, order);
        assert forall|j: int| 0 <= j < self.buy_orders@.len() implies #[trigger] self.buy_orders@[j].size > 0 by {
            if j < i {
                assert(self.buy_orders@[j] == old(self).buy_orders@[j]);
            } else if j > i {
                assert(self.buy_orders@[j] == old(self).buy_orders@[j - 1]);
            }
        }
    }

    /// Inserts a sell order behind every order that it does not outrank.
    fn insert_sell_order(&mut self, order: SellOrder)
        requires
            book_wf(old(self)@),
            order.size > 0,
        ensures
            final(self)@ == (BookState { sells: insert_sell(old(self)@.sells, order), ..old(self)@ }),
            book_wf(final(self)@),
    {
        let mut i: usize = 0;
        let n: usize = self.sell_orders.len();
        while i < n
            invariant
                i <= n == self.sell_orders@.len(),
                forall|j: int| 0 <= j < i ==> !sell_outranks(order, #[trigger] self.sell_orders@[j]),
            ensures
                i == n || sell_outranks(order, self.sell_orders@[i as int]),
            decreases n - i,
        {
            let o = self.sell_orders[i];
            if order.price < o.price || (order.price == o.price && order.timestamp < o.timestamp) {
                break;
            }
            i = i + 1;
        }
        proof {
            lemma_sell_slot(self.sell_orders@, order, i as int);
            lemma_insert_sell_sorted(self.sell_orders@, order);
        }
        self.sell_orders.insert(i, order);
        assert forall|j: int| 0 <= j < self.sell_orders@.len() implies #[trigger] self.sell_orders@[j].size > 0 by {
            if j < i {
                assert(self.sell_orders@[j] == old(self).sell_orders@[j]);
            } else if j > i {
                assert(self.sell_orders@[j] == old(self).sell_orders@[j - 1]);
            }
        }
    }

    /// Handles a new buy order: it trades with the best sell orders while
    /// they ask no more than its price, and what is left of a limit day order
    /// then rests in the book; otherwise the order is reported dead.
    pub fn handle_new_buy_order(&mut self, req: NewOrderRequest) -> (logs: Vec<OrderbookLog>)
        requires
            old(self).wf(),
        ensures
            final(self).wf(),
            (final(self)@, logs@) == new_buy_outcome(old(self)@, req),
    {
        let mut responses: Vec<OrderbookLog> = Vec::new();
        let mut left_size: Size = req.size;
        let ghost s0 = self@;
        let ghost target = match_buy(s0.sells, s0.deleted, req, req.size, s0.ticker);
        loop
            invariant_except_break
                book_wf(self@),
                self@.ticker == s0.ticker,
                self@.buys == s0.buys,
                ({
                    let r = match_buy(self@.sells, self@.deleted, req, left_size, s0.ticker);
                    &&& target.0 == r.0
                    &&& target.1 == r.1
                    &&& target.2 == responses@ + r.2
                    &&& target.3 == r.3
                }),
            ensures
                book_wf(self@),
                self@.ticker == s0.ticker,
                self@.buys == s0.buys,
                target.0 == self@.sells,
                target.1 == self@.deleted,
                target.2 == responses@,
                target.3 == left_size,
            decreases self@.sells.len() * 2 + if left_size > 0 { 1int } else { 0int },
        {
            let ghost before = self@;
            proof {
                lemma_match_buy_pop(before.sells, before.deleted, req, left_size, s0.ticker);
                lemma_pop_live_sell(before.sells, before.deleted);
            }
            let best = self.get_best_sell_order();
            match best {
                None => {
                    assert(responses@ + Seq::<OrderbookLog>::empty() =~= responses@);
                    break;
                },
                Some(b) => {
                    let ghost rest = self@.sells;
                    assert(seq![b] + rest =~= before.sells.subrange(
                        before.sells.len() - rest.len() - 1,
                        before.sells.len() as int,
                    ));
                    if b.price > req.price || left_size == 0 {
                        self.sell_orders.insert(0, b);
                        assert(self@.sells =~= seq![b] + rest);
                        assert(responses@ + Seq::<OrderbookLog>::empty() =~= responses@);
                        break;
                    }
                    let fill_size: Size = if left_size < b.size { left_size } else { b.size };
                    let fill_price: Price = b.price;
                    let mut resting_logs = self.generate_trade_log(b.order_id, fill_size, fill_price);
                    responses.append(&mut resting_logs);
                    if fill_size < b.size {
                        let reduced = SellOrder { size: b.size - fill_size, ..b };
                        self.sell_orders.insert(0, reduced);
                        assert(self@.sells =~= (seq![b] + rest).update(0, reduced));
                    } else {
                        responses.push(OrderbookLog::OrderLog(OrderResponse::OrderDead(
                            OrderDeadResponse { order_id: b.order_id },
                        )));
                        assert((seq![b] + rest).drop_first() =~= rest);
                    }
                    let mut incoming_logs = self.generate_trade_log(req.order_id, fill_size, fill_price);
                    responses.append(&mut incoming_logs);
                    left_size = left_size - fill_size;
                    proof {
                        let r = match_buy(self@.sells, self@.deleted, req, left_size, s0.ticker);
                        if fill_size < b.size {
                            assert(r.2 =~= Seq::<OrderbookLog>::empty());
                        }
                        assert(target.2 =~= responses@ + r.2);
                    }
                },
            }
        }
        if left_size > 0 && req.limit_or_market == LimitOrMarket::Limit && req.time_in_force == TimeInForce::Day {
            self.insert_buy_order(BuyOrder {
                order_id: req.order_id,
                size: left_size,
                price: req.price,
                timestamp: req.timestamp,
            });
            responses.push(OrderbookLog::EventLog(Event::OrderAdded(OrderAdded {
                order_id: req.order_id,
                ticker: self.ticker.clone(),
                direction: req.direction,
                resting_size: left_size,
                limit_price: req.price,
            })));
        } else {
            responses.push(OrderbookLog::OrderLog(OrderResponse::OrderDead(OrderDeadResponse {
                order_id: req.order_id,
            })));
        }
        proof {
            let r = new_buy_outcome(s0, req);
            assert(self@ == r.0);
            assert(responses@ =~= r.1);
        }
        responses
    }

    /// Handles a new sell order: it trades with the best buy orders while
    /// they bid no less than its price, and what is left of a limit day order
    /// then rests in the book; otherwise the order is reported dead.
    pub fn handle_new_sell_order(&mut self, req: NewOrderRequest) -> (logs: Vec<OrderbookLog>)
        requires
            old(self).wf(),
        ensures
            final(self).wf(),
            (final(self)@, logs@) == new_sell_outcome(old(self)@, req),
    {
        let mut responses: Vec<OrderbookLog> = Vec::new();
        let mut left_size: Size = req.size;
        let ghost s0 = self@;
        let ghost target = match_sell(s0.buys, s0.deleted, req, req.size, s0.ticker);
        loop
            invariant_except_break
                book_wf(self@),
                self@.ticker == s0.ticker,
                self@.sells == s0.sells,
                ({
                    let r = match_sell(self@.buys, self@.deleted, req, left_size, s0.ticker);
                    &&& target.0 == r.0
                    &&& target.1 == r.1
                    &&& target.2 == responses@ + r.2
                    &&& target.3 == r.3
                }),
            ensures
                book_wf(self@),
                self@.ticker == s0.ticker,
                self@.sells == s0.sells,
                target.0 == self@.buys,
                target.1 == self@.deleted,
                target.2 == responses@,
                target.3 == left_size,
            decreases self@.buys.len() * 2 + if left_size > 0 { 1int } else { 0int },
        {
            let ghost before = self@;
            proof {
                lemma_match_sell_pop(before.buys, before.deleted, req, left_size, s0.ticker);
                lemma_pop_live_buy(before.buys, before.deleted);
            }
            let best = self.get_best_buy_order();
            match best {
                None => {
                    assert(responses@ + Seq::<OrderbookLog>::empty() =~= responses@);
                    break;
                },
                Some(b) => {
                    let ghost rest = self@.buys;
                    assert(seq![b] + rest =~= before.buys.subrange(
                        before.buys.len() - rest.len() - 1,
                        before.buys.len() as int,
                    ));
                    if b.price < req.price || left_size == 0 {
                        self.buy_orders.insert(0, b);
                        assert(self@.buys =~= seq![b] + rest);
                        assert(responses@ + Seq::<OrderbookLog>::empty() =~= responses@);
                        break;
                    }
                    let fill_size: Size = if left_size < b.size { left_size } else { b.size };
                    let fill_price: Price = b.price;
                    let mut resting_logs = self.generate_trade_log(b.order_id, fill_size, fill_price);
                    responses.append(&mut resting_logs);
                    if fill_size < b.size {
                        let reduced = BuyOrder { size: b.size - fill_size, ..b };
                        self.buy_orders.insert(0, reduced);
                        assert(self@.buys =~= (seq![b] + rest).update(0, reduced));
                    } else {
                        responses.push(OrderbookLog::OrderLog(OrderResponse::OrderDead(
                            OrderDeadResponse { order_id: b.order_id },
                        )));
                        assert((seq![b] + rest).drop_first() =~= rest);
                    }
                    let mut incoming_logs = self.generate_trade_log(req.order_id, fill_size, fill_price);
                    responses.append(&mut incoming_logs);
                    left_size = left_size - fill_size;
                    proof {
                        let r = match_sell(self@.buys, self@.deleted, req, left_size, s0.ticker);
                        if fill_size < b.size {
                            assert(r.2 =~= Seq::<OrderbookLog>::empty());
                        }
                        assert(target.2 =~= responses@ + r.2);
                    }
                },
            }
        }
        if left_size > 0 && req.limit_or_market == LimitOrMarket::Limit && req.time_in_force == TimeInForce::Day {
            self.insert_sell_order(SellOrder {
                order_id: req.order_id,
                size: left_size,
                price: req.price,
                timestamp: req.timestamp,
            });
            responses.push(OrderbookLog::EventLog(Event::OrderAdded(OrderAdded {
                order_id: req.order_id,
                ticker: self.ticker.clone(),
                direction: req.direction,
                resting_size: left_size,
                limit_price: req.price,
            })));
        } else {
            responses.push(OrderbookLog::OrderLog(OrderResponse::OrderDead(OrderDeadResponse {
                order_id: req.order_id,
            })));
        }
        proof {
            let r = new_sell_outcome(s0, req);
            assert(self@ == r.0);
            assert(responses@ =~= r.1);
        }
        responses
    }

    /// Handles a new order on either side.
    pub fn handle_new_order(&mut self, req: NewOrderRequest) -> (logs: Vec<OrderbookLog>)
        requires
            old(self).wf(),
        ensures
            final(self).wf(),
            (final(self)@, logs@) == new_order_outcome(old(self)@, req),
    {
        match req.direction {
            Direction::Buy => self.handle_new_buy_order(req),
            Direction::Sell => self.handle_new_sell_order(req),
        }
    }

    /// Cancels an order: its id is remembered, and the order is discarded
    /// when it reaches the front of its side.
    pub fn handle_cancel_order(&mut self, req: CancelOrderRequest) -> (logs: Vec<OrderbookLog>)
        requires
            old(self).wf(),
        ensures
            final(self).wf(),
            (final(self)@, logs@) == cancel_outcome(old(self)@, req),
    {
        self.lazy_deleted.insert(req.order_id);
        let mut logs: Vec<OrderbookLog> = Vec::new();
        logs.push(OrderbookLog::OrderLog(OrderResponse::OrderDead(OrderDeadResponse {
            order_id: req.order_id,
        })));
        logs.push(OrderbookLog::EventLog(Event::OrderRemoved(OrderRemoved { order_id: req.order_id })));
        assert(logs@ =~= cancel_outcome(old(self)@, req).1);
        logs
    }

    /// Handles a request from the portal.
    pub fn handle_request(&mut self, req: OrderbookRequest) -> (logs: Vec<OrderbookLog>)
        requires
            old(self).wf(),
        ensures
            final(self).wf(),
            (final(self)@, logs@) == request_outcome(old(self)@, req),
    {
        match req {
            OrderbookRequest::NewOrder(new_order_req) => self.handle_new_order(new_order_req),
            OrderbookRequest::CancelOrder(cancel_order_req) => self.handle_cancel_order(cancel_order_req),
        }
    }

    /// The price of the best live buy order, if any; the book keeps every
    /// live order.
    pub fn best_buy_price(&mut self) -> (price: Option<Price>)
        requires
            old(self).wf(),
        ensures
            final(self).wf(),
            (price, final(self)@) == best_buy_outcome(old(self)@),
    {
        proof {
            lemma_pop_live_buy(self@.buys, self@.deleted);
        }
        let ghost s0 = self@;
        if let Some(best_buy_order) = self.get_best_buy_order() {
            let best_price = best_buy_order.price;
            let ghost rest = self@.buys;
            assert(seq![best_buy_order] + rest =~= s0.buys.subrange(
                s0.buys.len() - rest.len() - 1,
                s0.buys.len() as int,
            ));
            self.buy_orders.insert(0, best_buy_order);
            assert(self@.buys =~= seq![best_buy_order] + rest);
            Some(best_price)
        } else {
            None
        }
    }

    /// The price of the best live sell order, if any; the book keeps every
    /// live order.
    pub fn best_sell_price(&mut self) -> (price: Option<Price>)
        requires
            old(self).wf(),
        ensures
            final(self).wf(),
            (price, final(self)@) == best_sell_outcome(old(self)@),
    {
        proof {
            lemma_pop_live_sell(self@.sells, self@.deleted);
        }
        let ghost s0 = self@;
        if let Some(best_sell_order) = self.get_best_sell_order() {
            let best_price = best_sell_order.price;
            let ghost rest = self@.sells;
            assert(seq![best_sell_order] + rest =~= s0.sells.subrange(
                s0.sells.len() - rest.len() - 1,
                s0.sells.len() as int,
            ));
            self.sell_orders.insert(0, best_sell_order);
            assert(self@.sells =~= seq![best_sell_order] + rest);
            Some(best_price)
        } else {
            None
        }
    }
}

} // verus!

//! The portal: the exchange's core state and the processing of requests.

pub mod orderbook;
pub mod orderbook_laws;
pub mod event_history;
pub mod order_info;
pub mod stock_manager;
pub mod account;
pub mod account_manager;
pub mod orderbook_manager;
pub mod utils;
pub mod spec;
pub mod laws;
pub mod cash_laws;
pub mod resting_laws;
pub mod later_laws;
pub mod request_laws;

use vstd::prelude::*;
use self::account::Account;
use self::account_manager::{AccountManager, AccountsView, login_succeeds};
use self::event_history::EventHistory;
use self::order_info::OrderInfo;
use self::orderbook::{BookState, book_wf};
use self::orderbook_laws::{book_ids_within, log_ids_within, law_request_ids, lemma_best_price_ids};
use self::orderbook_manager::OrderbookManager;
use self::spec::{
    PortalState, portal_wf, apply_updates, log_step, logs_step, book_step, fill_in_price,
    potential_order, book_order, new_order_step, cancel_step, request_step, lemma_wf_frame,
    lemma_wf_book_update, reason_invalid_price_or_size, reason_insufficient, reason_invalid_cancel,
    open_after, died, release, refund_step,
};
use self::stock_manager::{StockManager, StockRecord, order_checkable};
use self::utils::orderresponse_to_acc_update;
use crate::ticker_map::entries_map;
use crate::types::account_manager::{AccountUpdate, PotentialOrder};
use crate::types::common::{Direction, InvId, LimitOrMarket, OrderId, Password, SeqNum, Size, Ticker};
use crate::types::orderbook::{CancelOrderRequest, NewOrderRequest, OrderbookLog, OrderbookRequest};
use crate::types::portal::{OrderResponse, PortalNewOrderRequest, PortalRequest, PortalTask, TaskView, tasks_view};
use crate::utils::{get_order_id, response_order_id};

verus! {

/// The empty books of the listed tickers.
pub open spec fn books_of(stocks: Seq<(Ticker, StockRecord)>) -> Map<Seq<char>, BookState>
    decreases stocks.len(),
{
    if stocks.len() == 0 {
        Map::empty()
    } else {
        books_of(stocks.drop_last()).insert(
            stocks.last().0@,
            BookState { ticker: stocks.last().0, buys: Seq::empty(), sells: Seq::empty(), deleted: Set::empty() },
        )
    }
}

/// Whether the portal can check a request: see `order_checkable`.
pub open spec fn request_checkable(stocks: Map<Seq<char>, StockRecord>, req: PortalRequest) -> bool {
    match req {
        PortalRequest::NewOrder(_, r) => order_checkable(stocks, r.ticker@, r.price),
        _ => true,
    }
}

/// The accounts by investor id; a later account replaces an earlier one
/// with the same id.
pub open spec fn accounts_of(investors: Seq<Account>) -> Map<InvId, account::AccountView>
    decreases investors.len(),
{
    if investors.len() == 0 {
        Map::empty()
    } else {
        accounts_of(investors.drop_last()).insert(investors.last().inv_id, investors.last()@)
    }
}

/// The exchange's core: order books, event history, order records, accounts
/// and listed stocks.
pub struct Portal {
    orderbook_manager: OrderbookManager,
    event_history: EventHistory,
    order_info: OrderInfo,
    account_manager: AccountManager,
    stock_manager: StockManager,
    last_order_id: u64,
}

impl View for Portal {
    type V = PortalState;

    closed spec fn view(&self) -> PortalState {
        PortalState {
            books: self.orderbook_manager.books(),
            history: self.event_history.events@,
            orders: self.order_info.bind@,
            resting: self.order_info.resting@,
            accounts: self.account_manager@,
            stocks: self.stock_manager.bind@,
            last_order_id: self.last_order_id,
        }
    }
}

/// Applies account updates in order.
fn apply_account_updates(accounts: &mut AccountManager, updates: Vec<AccountUpdate>)
    ensures
        final(accounts)@.accounts == apply_updates(old(accounts)@.accounts, updates@),
        final(accounts)@.logged_in == old(accounts)@.logged_in,
{
    let mut updates = updates;
    let ghost ups = updates@;
    let ghost n = ups.len();
    while updates.len() > 0
        invariant
            updates@ == ups.subrange(n - updates@.len(), n as int),
            n == ups.len(),
            updates@.len() <= n,
            accounts@.accounts == apply_updates(old(accounts)@.accounts, ups.subrange(0, n - updates@.len())),
            accounts@.logged_in == old(accounts)@.logged_in,
        decreases updates@.len(),
    {
        let ghost done = n - updates@.len();
        let upd = updates.remove(0);
        accounts.update(upd);
        assert(ups.subrange(0, done + 1).drop_last() =~= ups.subrange(0, done));
        assert(updates@ =~= ups.subrange(done + 1, n as int));
    }
    assert(ups.subrange(0, n as int) =~= ups);
}

/// The shares of an order of `size` that `logs` leave unfilled.
fn open_shares(logs: &Vec<OrderbookLog>, order_id: OrderId, size: Size) -> (open: Size)
    ensures
        open == open_after(logs@, order_id, size),
{
    let mut open: Size = size;
    let mut i: usize = 0;
    while i < logs.len()
        invariant
            i <= logs@.len(),
            open == open_after(logs@.subrange(0, i as int), order_id, size),
        decreases logs@.len() - i,
    {
        assert(logs@.subrange(0, i + 1).drop_last() =~= logs@.subrange(0, i as int));
        match &logs[i] {
            OrderbookLog::OrderLog(OrderResponse::OrderFill(f)) => {
                if f.order_id == order_id {
                    if f.fill_size <= open {
                        open = open - f.fill_size;
                    } else {
                        open = 0;
                    }
                }
            },
            _ => {},
        }
        i = i + 1;
    }
    assert(logs@.subrange(0, logs@.len() as int) =~= logs@);
    open
}

/// Whether `logs` end with the death of order `order_id`.
fn ends_dead(logs: &Vec<OrderbookLog>, order_id: OrderId) -> (d: bool)
    ensures
        d == died(logs@, order_id),
{
    if logs.len() == 0 {
        false
    } else {
        match &logs[logs.len() - 1] {
            OrderbookLog::OrderLog(OrderResponse::OrderDead(dead)) => dead.order_id == order_id,
            _ => false,
        }
    }
}

impl Portal {
    pub open spec fn wf(&self) -> bool {
        portal_wf(self@)
    }

    proof fn lemma_managers_wf(&self)
        requires
            self.wf(),
        ensures
            self.orderbook_manager.wf(),
    {
        assert forall|t: Seq<char>| #[trigger] self.orderbook_manager.bind@.contains_key(t) implies self.orderbook_manager.bind@[t].wf() by {
            assert(self@.books.contains_key(t));
        }
    }

    /// A portal for the listed stocks, each with an empty book, and the
    /// investors' accounts; nobody is logged in and no order exists yet.
    pub fn new(investors: Vec<Account>, stocks: Vec<(Ticker, StockRecord)>) -> (portal: Self)
        ensures
            portal.wf(),
            portal@ == (PortalState {
                books: books_of(stocks@),
                history: Seq::empty(),
                orders: Map::empty(),
                resting: Map::empty(),
                accounts: AccountsView { accounts: accounts_of(investors@), logged_in: Set::empty() },
                stocks: entries_map(stocks@),
                last_order_id: 0,
            }),
    {
        let mut orderbook_manager = OrderbookManager::new();
        let event_history = EventHistory::new();
        let order_info = OrderInfo::new();
        let mut account_manager = AccountManager::new();
        let mut stock_manager = StockManager::new();

        let mut stocks = stocks;
        let ghost all_stocks = stocks@;
        let ghost ns = all_stocks.len();
        assert(orderbook_manager.books() =~= Map::<Seq<char>, BookState>::empty());
        while stocks.len() > 0
            invariant
                stocks@ == all_stocks.subrange(ns - stocks@.len(), ns as int),
                ns == all_stocks.len(),
                stocks@.len() <= ns,
                orderbook_manager.wf(),
                orderbook_manager.books() == books_of(all_stocks.subrange(0, ns - stocks@.len())),
                stock_manager.bind@ == entries_map(all_stocks.subrange(0, ns - stocks@.len())),
            decreases stocks@.len(),
        {
            let ghost done = ns - stocks@.len();
            let (ticker, stock_rec) = stocks.remove(0);
            stock_manager.bind_stock(ticker.clone(), stock_rec);
            orderbook_manager.add_orderbook(ticker);
            assert(all_stocks.subrange(0, done + 1).drop_last() =~= all_stocks.subrange(0, done));
            assert(stocks@ =~= all_stocks.subrange(done + 1, ns as int));
        }
        assert(all_stocks.subrange(0, ns as int) =~= all_stocks);

        let mut investors = investors;
        let ghost all_inv = investors@;
        let ghost ni = all_inv.len();
        while investors.len() > 0
            invariant
                investors@ == all_inv.subrange(ni - investors@.len(), ni as int),
                ni == all_inv.len(),
                investors@.len() <= ni,
                account_manager@.accounts == accounts_of(all_inv.subrange(0, ni - investors@.len())),
                account_manager@.logged_in == Set::<InvId>::empty(),
            decreases investors@.len(),
        {
            let ghost done = ni - investors@.len();
            let inv = investors.remove(0);
            account_manager.add_account(inv.inv_id, inv);
            assert(all_inv.subrange(0, done + 1).drop_last() =~= all_inv.subrange(0, done));
            assert(investors@ =~= all_inv.subrange(done + 1, ni as int));
        }
        assert(all_inv.subrange(0, ni as int) =~= all_inv);

        let portal = Portal {
            orderbook_manager,
            event_history,
            order_info,
            account_manager,
            stock_manager,
            last_order_id: 0,
        };
        proof {
            assert forall|t: Seq<char>| #[trigger] portal@.books.contains_key(t) implies book_wf(portal@.books[t]) by {
                assert(portal.orderbook_manager.bind@.contains_key(t));
            }
            assert forall|t: Seq<char>| #[trigger] portal@.books.contains_key(t) implies book_ids_within(portal@.books[t], portal@.orders.dom()) by {
                assert(portal.orderbook_manager.bind@.contains_key(t));
                assert(portal@.books[t].buys.len() == 0 && portal@.books[t].sells.len() == 0) by {
                    lemma_books_of_empty(all_stocks, t);
                }
            }
        }
        portal
    }
}

/// Every book that `books_of` opens is empty.
pub proof fn lemma_books_of_empty(stocks: Seq<(Ticker, StockRecord)>, t: Seq<char>)
    requires
        books_of(stocks).contains_key(t),
    ensures
        books_of(stocks)[t].buys.len() == 0,
        books_of(stocks)[t].sells.len() == 0,
        books_of(stocks)[t].deleted == Set::<OrderId>::empty(),
    decreases stocks.len(),
{
    if stocks.len() > 0 && stocks.last().0@ != t {
        lemma_books_of_empty(stocks.drop_last(), t);
    }
}


impl Portal {
    /// Processes one log of a book: a response settles its owner's account
    /// and becomes a task for the owner; an event updates the history and
    /// the resting sizes and becomes a task for every subscriber.
    fn process_log(&mut self, log: OrderbookLog) -> (task: PortalTask)
        requires
            old(self).wf(),
            log matches OrderbookLog::OrderLog(r) ==> old(self)@.orders.contains_key(response_order_id(r)),
        ensures
            final(self).wf(),
            (final(self)@, task@) == log_step(old(self)@, log),
    {
        match log {
            OrderbookLog::OrderLog(order_resp) => {
                let order_id = get_order_id(&order_resp);
                let resting_size = self.order_info.get_resting(&order_id);
                let order_rec = self.order_info.get_order_record(&order_id).unwrap();
                let task = PortalTask::OrderResponse(order_rec.inv_id, order_resp);
                let updates = orderresponse_to_acc_update(order_resp, order_rec, resting_size);
                apply_account_updates(&mut self.account_manager, updates);
                proof {
                    lemma_wf_frame(old(self)@, self@);
                }
                task
            },
            OrderbookLog::EventLog(event) => {
                let task = PortalTask::IncrementalEvent(event.clone());
                self.event_history.update_by_event(event.clone());
                self.order_info.update_by_event(event);
                proof {
                    lemma_wf_frame(old(self)@, self@);
                }
                task
            },
        }
    }

    /// Processes the logs of a book in order.
    fn process_logs(&mut self, logs: Vec<OrderbookLog>) -> (tasks: Vec<PortalTask>)
        requires
            old(self).wf(),
            log_ids_within(logs@, old(self)@.orders.dom()),
        ensures
            final(self).wf(),
            (final(self)@, tasks_view(tasks@)) == logs_step(old(self)@, logs@),
    {
        let mut tasks: Vec<PortalTask> = Vec::new();
        let mut logs = logs;
        let ghost all = logs@;
        let ghost n = all.len();
        assert(tasks_view(tasks@) =~= Seq::<TaskView>::empty());
        assert(all.subrange(0, 0) =~= Seq::<OrderbookLog>::empty());
        while logs.len() > 0
            invariant
                n == all.len(),
                logs@.len() <= n,
                logs@ == all.subrange(n - logs@.len(), n as int),
                self.wf(),
                self@.orders == old(self)@.orders,
                log_ids_within(all, self@.orders.dom()),
                (self@, tasks_view(tasks@)) == logs_step(old(self)@, all.subrange(0, n - logs@.len())),
            decreases logs@.len(),
        {
            let ghost done = n - logs@.len();
            let log = logs.remove(0);
            assert(log == all[done]);
            let task = self.process_log(log);
            let ghost before = tasks@;
            tasks.push(task);
            assert(all.subrange(0, done + 1).drop_last() =~= all.subrange(0, done));
            assert(tasks_view(tasks@) =~= tasks_view(before).push(task@));
            assert(logs@ =~= all.subrange(done + 1, n as int));
        }
        assert(all.subrange(0, n as int) =~= all);
        tasks
    }

    /// The ticker of an accepted order.
    fn find_ticker_by_order_id(&self, order_id: u64) -> (t: Option<Ticker>)
        ensures
            t == (if self@.orders.contains_key(order_id) {
                Some(self@.orders[order_id].ticker)
            } else {
                None::<Ticker>
            }),
    {
        match self.order_info.get_order_record(&order_id) {
            Some(order_rec) => Some(order_rec.ticker.clone()),
            None => None,
        }
    }

    /// The next order id.
    fn generate_order_id(&mut self) -> (id: u64)
        requires
            old(self).last_order_id < u64::MAX,
        ensures
            id == old(self).last_order_id + 1,
            final(self)@ == (PortalState { last_order_id: id, ..old(self)@ }),
            final(self).wf() == old(self).wf(),
    {
        self.last_order_id = self.last_order_id + 1;
        proof {
            if old(self).wf() {
                lemma_wf_frame(old(self)@, self@);
            }
        }
        self.last_order_id
    }
}


impl Portal {
    /// Logs an investor in; a second login of the same investor fails.
    pub fn try_login(&mut self, inv_id: InvId, password: &Password) -> (ok: bool)
        requires
            old(self).wf(),
        ensures
            final(self).wf(),
            ok == login_succeeds(old(self)@.accounts, inv_id, password@),
            final(self)@ == (PortalState {
                accounts: AccountsView {
                    logged_in: if ok {
                        old(self)@.accounts.logged_in.insert(inv_id)
                    } else {
                        old(self)@.accounts.logged_in
                    },
                    ..old(self)@.accounts
                },
                ..old(self)@
            }),
    {
        let ok = self.account_manager.try_login(inv_id, password);
        proof {
            lemma_wf_frame(old(self)@, self@);
        }
        ok
    }

    /// What a new order needs from its owner.
    fn make_potential_order(&self, req: &PortalNewOrderRequest) -> (p: PotentialOrder)
        ensures
            p == potential_order(*req),
    {
        match req.direction {
            Direction::Buy => PotentialOrder::PotentialBuy(self::utils::cash_for(req.size, req.price)),
            Direction::Sell => PotentialOrder::PotentialSell(req.size, req.ticker.clone()),
        }
    }

    /// Gives a market order the best opposite price of its book, or the
    /// close price of its stock when the book has none.
    fn fill_in_market_order(&mut self, req: PortalNewOrderRequest) -> (r: PortalNewOrderRequest)
        requires
            old(self).wf(),
            old(self)@.stocks.contains_key(req.ticker@),
        ensures
            final(self).wf(),
            (final(self)@, r.price) == fill_in_price(old(self)@, req),
            r == (PortalNewOrderRequest { price: r.price, ..req }),
    {
        proof {
            self.lemma_managers_wf();
            if self@.books.contains_key(req.ticker@) {
                lemma_best_price_ids(self@.books[req.ticker@], self@.orders.dom());
            }
        }
        let best = match req.direction {
            Direction::Buy => self.orderbook_manager.best_sell_price(&req.ticker),
            Direction::Sell => self.orderbook_manager.best_buy_price(&req.ticker),
        };
        let best_price = match best {
            Some(p) => p,
            None => self.stock_manager.get_close_price(&req.ticker).unwrap(),
        };
        proof {
            let t = req.ticker@;
            if old(self)@.books.contains_key(t) {
                assert(self.orderbook_manager.bind@.contains_key(t));
                lemma_wf_book_update(old(self)@, t, self@.books[t]);
                assert(self@.books =~= old(self)@.books.insert(t, self@.books[t]));
            } else {
                lemma_wf_frame(old(self)@, self@);
            }
        }
        PortalNewOrderRequest { price: best_price, ..req }
    }

    /// Hands an accepted order to its book and processes the book's logs;
    /// when the order dies without resting, gives back what it reserved for
    /// its unfilled shares.
    fn process_new_order(&mut self, order_id: OrderId, req: PortalNewOrderRequest) -> (tasks: Vec<PortalTask>)
        requires
            old(self).wf(),
            old(self)@.orders.contains_key(order_id),
        ensures
            final(self).wf(),
            ({
                let b = book_step(old(self)@, req.ticker@, OrderbookRequest::NewOrder(book_order(order_id, req)));
                let l = logs_step(b.0, b.1);
                (final(self)@, tasks_view(tasks@)) == (refund_step(l.0, b.1, order_id, req.size), l.1)
            }),
    {
        let order_book_req = OrderbookRequest::NewOrder(NewOrderRequest {
            order_id,
            direction: req.direction,
            size: req.size,
            price: req.price,
            limit_or_market: req.limit_or_market,
            time_in_force: req.time_in_force,
            timestamp: req.timestamp,
        });
        let ghost t = req.ticker@;
        proof {
            self.lemma_managers_wf();
            if self@.books.contains_key(t) {
                law_request_ids(self@.books[t], order_book_req, self@.orders.dom());
            }
        }
        let logs = self.orderbook_manager.handle_orderbook_request(req.ticker, order_book_req);
        proof {
            if old(self)@.books.contains_key(t) {
                assert(self.orderbook_manager.bind@.contains_key(t));
                lemma_wf_book_update(old(self)@, t, self@.books[t]);
                assert(self@.books =~= old(self)@.books.insert(t, self@.books[t]));
            } else {
                lemma_wf_frame(old(self)@, self@);
                assert(logs@ =~= Seq::<OrderbookLog>::empty());
            }
        }
        let dead = ends_dead(&logs, order_id);
        let open = open_shares(&logs, order_id, req.size);
        let ghost lg = logs@;
        let ghost before = self@;
        let tasks = self.process_logs(logs);
        proof {
            self::laws::lemma_logs_step_frame(before, lg);
        }
        if dead && open > 0 {
            let upd = match self.order_info.get_order_record(&order_id) {
                Some(rec) => match rec.direction {
                    Direction::Buy => AccountUpdate::UpdCash(rec.inv_id, self::utils::cash_for(open, rec.limit_price)),
                    Direction::Sell => AccountUpdate::AddPos(rec.inv_id, rec.ticker.clone(), open),
                },
                None => {
                    proof {
                        assert(false);
                    }
                    AccountUpdate::UpdCash(0, 0)
                },
            };
            assert(upd == release(self@.orders[order_id], open));
            let ghost mid = self@;
            self.account_manager.update(upd);
            proof {
                lemma_wf_frame(mid, self@);
            }
        }
        tasks
    }

    /// Checks a new order and, when it is valid, processes it.
    fn process_portal_new_order(&mut self, inv_id: InvId, seqnum: SeqNum, req: PortalNewOrderRequest) -> (tasks: Vec<PortalTask>)
        requires
            old(self).wf(),
            order_checkable(old(self)@.stocks, req.ticker@, req.price),
            old(self)@.last_order_id < u64::MAX,
        ensures
            final(self).wf(),
            (final(self)@, tasks_view(tasks@)) == new_order_step(old(self)@, inv_id, seqnum, req),
    {
        proof {
            self.lemma_managers_wf();
        }
        if self.stock_manager.check_valid_order(&req.ticker, &req.price, &req.size) {
            let req = match req.limit_or_market {
                LimitOrMarket::Market => self.fill_in_market_order(req),
                LimitOrMarket::Limit => req,
            };
            let ghost after_fill = self@;
            let p_order = self.make_potential_order(&req);
            proof {
                self::utils::lemma_cash_of_nonneg(req.size, req.price);
            }
            if self.account_manager.valid_potential_order(&inv_id, &p_order) {
                let order_id = self.generate_order_id();
                let mut tasks: Vec<PortalTask> = Vec::new();
                tasks.push(PortalTask::OrderAck(inv_id, seqnum, order_id));
                self.account_manager.update_by_potential_order(inv_id, p_order);
                self.order_info.add_new_order(&order_id, &inv_id, &req);
                proof {
                    lemma_wf_frame(after_fill, self@);
                }
                let ghost mid = self@;
                let mut more = self.process_new_order(order_id, req);
                let ghost first = tasks@;
                let ghost second = more@;
                tasks.append(&mut more);
                assert(tasks_view(tasks@) =~= tasks_view(first) + tasks_view(second));
                tasks
            } else {
                let mut tasks: Vec<PortalTask> = Vec::new();
                tasks.push(PortalTask::OrderReject(
                    inv_id,
                    seqnum,
                    "Invalid new order request: Insufficient cash or lot to complete the order".to_owned(),
                ));
                assert(tasks_view(tasks@) =~= seq![TaskView::OrderReject(inv_id, seqnum, reason_insufficient())]);
                tasks
            }
        } else {
            let mut tasks: Vec<PortalTask> = Vec::new();
            tasks.push(PortalTask::OrderReject(
                inv_id,
                seqnum,
                "Invalid new order request: Invalid price or size".to_owned(),
            ));
            assert(tasks_view(tasks@) =~= seq![TaskView::OrderReject(inv_id, seqnum, reason_invalid_price_or_size())]);
            tasks
        }
    }

    /// Checks a cancellation and, when it is valid, hands it to the order's
    /// book and processes the book's logs.
    fn process_portal_cancel_order(&mut self, inv_id: InvId, seqnum: SeqNum, order_id: OrderId) -> (tasks: Vec<PortalTask>)
        requires
            old(self).wf(),
        ensures
            final(self).wf(),
            (final(self)@, tasks_view(tasks@)) == cancel_step(old(self)@, inv_id, seqnum, order_id),
    {
        let valid = self.order_info.valid_cancel_order(&order_id, &inv_id);
        proof {
            lemma_wf_frame(old(self)@, self@);
        }
        if valid {
            let req = OrderbookRequest::CancelOrder(CancelOrderRequest { order_id });
            let ticker = self.find_ticker_by_order_id(order_id).unwrap();
            let ghost t = ticker@;
            proof {
                self.lemma_managers_wf();
                if self@.books.contains_key(t) {
                    law_request_ids(self@.books[t], req, self@.orders.dom());
                }
            }
            let ghost before = self@;
            let logs = self.orderbook_manager.handle_orderbook_request(ticker, req);
            proof {
                if before.books.contains_key(t) {
                    assert(self.orderbook_manager.bind@.contains_key(t));
                    lemma_wf_book_update(before, t, self@.books[t]);
                    assert(self@.books =~= before.books.insert(t, self@.books[t]));
                } else {
                    lemma_wf_frame(before, self@);
                    assert(logs@ =~= Seq::<OrderbookLog>::empty());
                }
            }
            self.process_logs(logs)
        } else {
            let mut tasks: Vec<PortalTask> = Vec::new();
            tasks.push(PortalTask::CancelReject(inv_id, seqnum, "Invalid cancel order request".to_owned()));
            assert(tasks_view(tasks@) =~= seq![TaskView::CancelReject(inv_id, seqnum, reason_invalid_cancel())]);
            tasks
        }
    }

    /// Whether the portal can check a request: a new order for a listed stock
    /// at a valid price is checked against the stock's lot size, which must
    /// then be at least one share.
    pub fn can_check_request(&self, req: &PortalRequest) -> (r: bool)
        ensures
            r == request_checkable(self@.stocks, *req),
    {
        match req {
            PortalRequest::NewOrder(_, r) => {
                match self.stock_manager.bind.get(&r.ticker) {
                    Some(rec) => !(rec.mpf != 0 && r.price % rec.mpf == 0) || rec.lot_size > 0,
                    None => true,
                }
            },
            _ => true,
        }
    }

    /// Processes a request and returns the tasks it leaves for the network
    /// layer.
    pub fn process_request(&mut self, seqnum: SeqNum, req: PortalRequest) -> (tasks: Vec<PortalTask>)
        requires
            old(self).wf(),
            request_checkable(old(self)@.stocks, req),
            old(self)@.last_order_id < u64::MAX,
        ensures
            final(self).wf(),
            (final(self)@, tasks_view(tasks@)) == request_step(old(self)@, seqnum, req),
    {
        match req {
            PortalRequest::EventHistory(sub_id) => {
                let events = self.event_history.get_history();
                let mut tasks: Vec<PortalTask> = Vec::new();
                tasks.push(PortalTask::EventHistory(sub_id, events));
                assert(tasks_view(tasks@) =~= seq![TaskView::EventHistory(sub_id, self@.history)]);
                tasks
            },
            PortalRequest::NewOrder(inv_id, req) => self.process_portal_new_order(inv_id, seqnum, req),
            PortalRequest::CancelOrder(inv_id, order_id) => self.process_portal_cancel_order(inv_id, seqnum, order_id),
        }
    }

    /// The id given to the last accepted order.
    pub fn last_order_id(&self) -> (id: u64)
        ensures
            id == self@.last_order_id,
    {
        self.last_order_id
    }
}

} // verus!


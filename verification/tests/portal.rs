use ses::portal::account::Account;
use ses::portal::stock_manager::StockRecord;
use ses::portal::Portal;
use ses::types::common::{Direction, LimitOrMarket, TimeInForce};
use ses::types::event::Event;
use ses::types::orderbook::{OrderDeadResponse, OrderFillResponse};
use ses::types::portal::{OrderResponse, PortalNewOrderRequest, PortalRequest, PortalTask};

fn aapl() -> (String, StockRecord) {
    (
        "AAPL".to_string(),
        StockRecord { close_price: 100, lot_size: 10, mpf: 5, name: "Apple".to_string() },
    )
}

fn portal() -> Portal {
    let mut alice = Account::new(1, "alice".to_string(), "pw1".to_string(), 10_000);
    alice.add_position("AAPL".to_string(), 50);
    let bob = Account::new(2, "bob".to_string(), "pw2".to_string(), 1_000);
    Portal::new(vec![alice, bob], vec![aapl()])
}

fn order(direction: Direction, size: u32, price: u64, lm: LimitOrMarket, tif: TimeInForce, ts: u64) -> PortalNewOrderRequest {
    PortalNewOrderRequest {
        ticker: "AAPL".to_string(),
        direction,
        size,
        price,
        limit_or_market: lm,
        time_in_force: tif,
        timestamp: ts,
    }
}

#[test]
fn second_login_fails() {
    let mut p = portal();
    assert!(p.try_login(1, &"pw1".to_string()));
    assert!(!p.try_login(1, &"pw1".to_string()));
    assert!(!p.try_login(2, &"wrong".to_string()));
    assert!(p.try_login(2, &"pw2".to_string()));
    assert!(!p.try_login(3, &"pw1".to_string()));
}

#[test]
fn invalid_price_or_size_is_rejected() {
    let mut p = portal();
    // size not a whole number of lots
    let tasks = p.process_request(7, PortalRequest::NewOrder(1, order(Direction::Buy, 15, 100, LimitOrMarket::Limit, TimeInForce::Day, 1)));
    assert_eq!(tasks.len(), 1);
    match &tasks[0] {
        PortalTask::OrderReject(inv, seq, reason) => {
            assert_eq!((*inv, *seq), (1, 7));
            assert_eq!(reason, "Invalid new order request: Invalid price or size");
        }
        _ => panic!("expected a rejection"),
    }
    // price not a multiple of the minimum price fluctuation
    let tasks = p.process_request(8, PortalRequest::NewOrder(1, order(Direction::Buy, 10, 101, LimitOrMarket::Limit, TimeInForce::Day, 1)));
    assert!(matches!(&tasks[0], PortalTask::OrderReject(1, 8, _)));
    // unknown ticker
    let mut o = order(Direction::Buy, 10, 100, LimitOrMarket::Limit, TimeInForce::Day, 1);
    o.ticker = "MSFT".to_string();
    let tasks = p.process_request(9, PortalRequest::NewOrder(1, o));
    assert!(matches!(&tasks[0], PortalTask::OrderReject(1, 9, _)));
    assert_eq!(p.last_order_id(), 0);
}

#[test]
fn insufficient_cash_or_shares_is_rejected() {
    let mut p = portal();
    // bob has 1000 in cash: 20 shares at the close price of 100 cost 2000
    let tasks = p.process_request(1, PortalRequest::NewOrder(2, order(Direction::Buy, 20, 100, LimitOrMarket::Limit, TimeInForce::Day, 1)));
    match &tasks[0] {
        PortalTask::OrderReject(2, 1, reason) => {
            assert_eq!(reason, "Invalid new order request: Insufficient cash or lot to complete the order")
        }
        _ => panic!("expected a rejection"),
    }
    // bob has no shares to sell
    let tasks = p.process_request(2, PortalRequest::NewOrder(2, order(Direction::Sell, 10, 100, LimitOrMarket::Limit, TimeInForce::Day, 1)));
    assert!(matches!(&tasks[0], PortalTask::OrderReject(2, 2, _)));
    assert_eq!(p.last_order_id(), 0);
}

#[test]
fn accepted_orders_get_increasing_ids_and_trade() {
    let mut p = portal();
    // bob buys 10: there is no sell order, so the order takes the close price
    let tasks = p.process_request(1, PortalRequest::NewOrder(2, order(Direction::Buy, 10, 100, LimitOrMarket::Limit, TimeInForce::Day, 1)));
    assert_eq!(tasks.len(), 2);
    assert!(matches!(&tasks[0], PortalTask::OrderAck(2, 1, 1)));
    match &tasks[1] {
        PortalTask::IncrementalEvent(Event::OrderAdded(a)) => {
            assert_eq!((a.order_id, a.resting_size, a.limit_price), (1, 10, 100));
        }
        _ => panic!("expected the order to rest"),
    }
    // alice sells 20: the order takes the best bid, 100, and trades 10
    let tasks = p.process_request(2, PortalRequest::NewOrder(1, order(Direction::Sell, 20, 100, LimitOrMarket::Limit, TimeInForce::Day, 2)));
    assert!(matches!(&tasks[0], PortalTask::OrderAck(1, 2, 2)));
    let responses: Vec<(u64, OrderResponse)> = tasks
        .iter()
        .filter_map(|t| match t {
            PortalTask::OrderResponse(inv, r) => Some((*inv, *r)),
            _ => None,
        })
        .collect();
    assert_eq!(
        responses,
        vec![
            (2, OrderResponse::OrderFill(OrderFillResponse { order_id: 1, fill_size: 10, fill_price: 100 })),
            (2, OrderResponse::OrderDead(OrderDeadResponse { order_id: 1 })),
            (1, OrderResponse::OrderFill(OrderFillResponse { order_id: 2, fill_size: 10, fill_price: 100 })),
        ]
    );
    // the rest of alice's order rests
    match tasks.last().unwrap() {
        PortalTask::IncrementalEvent(Event::OrderAdded(a)) => {
            assert_eq!((a.order_id, a.resting_size, a.direction), (2, 10, Direction::Sell));
        }
        _ => panic!("expected the rest to rest"),
    }
    assert_eq!(p.last_order_id(), 2);

    // the history holds every event so far
    let tasks = p.process_request(0, PortalRequest::EventHistory(5));
    match &tasks[0] {
        PortalTask::EventHistory(5, events) => assert_eq!(events.len(), 4),
        _ => panic!("expected the history"),
    }
}

#[test]
fn cancel_rules() {
    let mut p = portal();
    let _ = p.process_request(1, PortalRequest::NewOrder(2, order(Direction::Buy, 10, 100, LimitOrMarket::Limit, TimeInForce::Day, 1)));
    // only the owner may cancel
    let tasks = p.process_request(2, PortalRequest::CancelOrder(1, 1));
    match &tasks[0] {
        PortalTask::CancelReject(1, 2, reason) => assert_eq!(reason, "Invalid cancel order request"),
        _ => panic!("expected a rejection"),
    }
    // an unknown order cannot be cancelled
    let tasks = p.process_request(3, PortalRequest::CancelOrder(2, 99));
    assert!(matches!(&tasks[0], PortalTask::CancelReject(2, 3, _)));
    // the owner cancels: the order dies and is removed
    let tasks = p.process_request(4, PortalRequest::CancelOrder(2, 1));
    assert_eq!(tasks.len(), 2);
    assert!(matches!(&tasks[0], PortalTask::OrderResponse(2, OrderResponse::OrderDead(OrderDeadResponse { order_id: 1 }))));
    assert!(matches!(&tasks[1], PortalTask::IncrementalEvent(Event::OrderRemoved(_))));
    // a second cancellation is rejected
    let tasks = p.process_request(5, PortalRequest::CancelOrder(2, 1));
    assert!(matches!(&tasks[0], PortalTask::CancelReject(2, 5, _)));
}

#[test]
fn reserved_cash_comes_back_on_cancel() {
    let mut p = portal();
    // bob can buy 10 at 100 once with 1000 in cash
    let tasks = p.process_request(1, PortalRequest::NewOrder(2, order(Direction::Buy, 10, 100, LimitOrMarket::Limit, TimeInForce::Day, 1)));
    assert!(matches!(&tasks[0], PortalTask::OrderAck(2, 1, 1)));
    // his cash is reserved: a second order is rejected
    let tasks = p.process_request(2, PortalRequest::NewOrder(2, order(Direction::Buy, 10, 100, LimitOrMarket::Limit, TimeInForce::Day, 2)));
    assert!(matches!(&tasks[0], PortalTask::OrderReject(2, 2, _)));
    // after cancelling, the cash is back and the order is accepted
    let _ = p.process_request(3, PortalRequest::CancelOrder(2, 1));
    let tasks = p.process_request(4, PortalRequest::NewOrder(2, order(Direction::Buy, 10, 100, LimitOrMarket::Limit, TimeInForce::Day, 3)));
    assert!(matches!(&tasks[0], PortalTask::OrderAck(2, 4, 2)));
}

#[test]
fn cash_follows_trades_and_is_never_overspent() {
    let mut p = portal();
    // bob spends all his 1000 on 10 shares at 100: the order rests
    let tasks = p.process_request(1, PortalRequest::NewOrder(2, order(Direction::Buy, 10, 100, LimitOrMarket::Limit, TimeInForce::Day, 1)));
    assert!(matches!(&tasks[0], PortalTask::OrderAck(2, 1, 1)));
    // nothing is left for another lot, even at a price of 5
    let tasks = p.process_request(2, PortalRequest::NewOrder(2, order(Direction::Buy, 10, 5, LimitOrMarket::Limit, TimeInForce::Day, 2)));
    assert!(matches!(&tasks[0], PortalTask::OrderReject(2, 2, _)));
    // alice sells him 10 at 100
    let tasks = p.process_request(3, PortalRequest::NewOrder(1, order(Direction::Sell, 10, 100, LimitOrMarket::Limit, TimeInForce::Day, 3)));
    assert!(matches!(&tasks[0], PortalTask::OrderAck(1, 3, 2)));
    assert!(tasks.iter().any(|t| matches!(t, PortalTask::OrderResponse(2, OrderResponse::OrderFill(OrderFillResponse { order_id: 1, fill_size: 10, fill_price: 100 })))));
    // the trade at his limit returned none of his cash
    let tasks = p.process_request(4, PortalRequest::NewOrder(2, order(Direction::Buy, 10, 5, LimitOrMarket::Limit, TimeInForce::Day, 4)));
    assert!(matches!(&tasks[0], PortalTask::OrderReject(2, 4, _)));
    // bob sells his 10 shares; they rest at the close price
    let tasks = p.process_request(5, PortalRequest::NewOrder(2, order(Direction::Sell, 10, 100, LimitOrMarket::Limit, TimeInForce::Day, 5)));
    assert!(matches!(&tasks[0], PortalTask::OrderAck(2, 5, 3)));
    // alice buys them at the best ask: bob is paid 1000
    let tasks = p.process_request(6, PortalRequest::NewOrder(1, order(Direction::Buy, 10, 100, LimitOrMarket::Limit, TimeInForce::Day, 6)));
    assert!(matches!(&tasks[0], PortalTask::OrderAck(1, 6, 4)));
    assert!(tasks.iter().any(|t| matches!(t, PortalTask::OrderResponse(2, OrderResponse::OrderFill(OrderFillResponse { order_id: 3, fill_size: 10, fill_price: 100 })))));
    // so bob can buy 10 at 100 again, but no more
    let tasks = p.process_request(7, PortalRequest::NewOrder(2, order(Direction::Buy, 10, 100, LimitOrMarket::Limit, TimeInForce::Day, 7)));
    assert!(matches!(&tasks[0], PortalTask::OrderAck(2, 7, 5)));
    let tasks = p.process_request(8, PortalRequest::NewOrder(2, order(Direction::Buy, 10, 5, LimitOrMarket::Limit, TimeInForce::Day, 8)));
    assert!(matches!(&tasks[0], PortalTask::OrderReject(2, 8, _)));
}

#[test]
fn cancellation_follows_the_live_orders() {
    let mut p = portal();
    // alice offers 20 of her 50 shares: the order rests
    let tasks = p.process_request(1, PortalRequest::NewOrder(1, order(Direction::Sell, 20, 100, LimitOrMarket::Limit, TimeInForce::Day, 1)));
    assert!(matches!(&tasks[0], PortalTask::OrderAck(1, 1, 1)));
    // bob buys 10 of them: his order trades in full, hers keeps 10
    let tasks = p.process_request(2, PortalRequest::NewOrder(2, order(Direction::Buy, 10, 100, LimitOrMarket::Limit, TimeInForce::Day, 2)));
    assert!(matches!(&tasks[0], PortalTask::OrderAck(2, 2, 2)));
    assert!(matches!(tasks.last().unwrap(), PortalTask::OrderResponse(2, OrderResponse::OrderDead(OrderDeadResponse { order_id: 2 }))));
    // bob's order no longer rests
    let tasks = p.process_request(3, PortalRequest::CancelOrder(2, 2));
    assert!(matches!(&tasks[0], PortalTask::CancelReject(2, 3, _)));
    // alice's rests with 10 shares: she can cancel it once
    let tasks = p.process_request(4, PortalRequest::CancelOrder(1, 1));
    assert_eq!(tasks.len(), 2);
    assert!(matches!(&tasks[0], PortalTask::OrderResponse(1, OrderResponse::OrderDead(OrderDeadResponse { order_id: 1 }))));
    let tasks = p.process_request(5, PortalRequest::CancelOrder(1, 1));
    assert!(matches!(&tasks[0], PortalTask::CancelReject(1, 5, _)));
    // the 10 shares left came back: she holds 40 again, not 50
    let tasks = p.process_request(6, PortalRequest::NewOrder(1, order(Direction::Sell, 50, 100, LimitOrMarket::Limit, TimeInForce::Day, 3)));
    assert!(matches!(&tasks[0], PortalTask::OrderReject(1, 6, _)));
    let tasks = p.process_request(7, PortalRequest::NewOrder(1, order(Direction::Sell, 40, 100, LimitOrMarket::Limit, TimeInForce::Day, 4)));
    assert!(matches!(&tasks[0], PortalTask::OrderAck(1, 7, 3)));
    // an immediate-or-cancel order that finds no match never rests
    // (bob sells the 10 shares he bought; there is no bid)
    let tasks = p.process_request(8, PortalRequest::NewOrder(2, order(Direction::Sell, 10, 100, LimitOrMarket::Limit, TimeInForce::IOC, 5)));
    assert!(matches!(&tasks[0], PortalTask::OrderAck(2, 8, 4)));
    assert!(matches!(tasks.last().unwrap(), PortalTask::OrderResponse(2, OrderResponse::OrderDead(OrderDeadResponse { order_id: 4 }))));
    let tasks = p.process_request(9, PortalRequest::CancelOrder(2, 4));
    assert!(matches!(&tasks[0], PortalTask::CancelReject(2, 9, _)));
}

#[test]
fn a_limit_order_keeps_its_price() {
    let mut p = portal();
    // on an empty book a limit buy rests at its own price, not at the close price
    let tasks = p.process_request(1, PortalRequest::NewOrder(1, order(Direction::Buy, 10, 1000, LimitOrMarket::Limit, TimeInForce::Day, 1)));
    assert!(matches!(&tasks[0], PortalTask::OrderAck(1, 1, 1)));
    match &tasks[1] {
        PortalTask::IncrementalEvent(Event::OrderAdded(a)) => {
            assert_eq!((a.order_id, a.resting_size, a.limit_price), (1, 10, 1000));
        }
        _ => panic!("expected the order to rest"),
    }
    // a limit sell at 100 keeps its price and trades at the resting bid, 1000
    let tasks = p.process_request(2, PortalRequest::NewOrder(1, order(Direction::Sell, 10, 100, LimitOrMarket::Limit, TimeInForce::Day, 2)));
    assert!(tasks.iter().any(|t| matches!(t, PortalTask::OrderResponse(1, OrderResponse::OrderFill(OrderFillResponse { order_id: 2, fill_size: 10, fill_price: 1000 })))));
}

#[test]
fn a_market_order_takes_the_best_price() {
    let mut p = portal();
    // alice offers 10 at 200
    let _ = p.process_request(1, PortalRequest::NewOrder(1, order(Direction::Sell, 10, 200, LimitOrMarket::Limit, TimeInForce::Day, 1)));
    // bob's market buy, whatever price it names, is priced at the best ask and needs 2000
    let tasks = p.process_request(2, PortalRequest::NewOrder(2, order(Direction::Buy, 10, 5, LimitOrMarket::Market, TimeInForce::IOC, 2)));
    assert!(matches!(&tasks[0], PortalTask::OrderReject(2, 2, _)));
    // alice's market buy takes it at 200
    let tasks = p.process_request(3, PortalRequest::NewOrder(1, order(Direction::Buy, 10, 5, LimitOrMarket::Market, TimeInForce::IOC, 3)));
    assert!(tasks.iter().any(|t| matches!(t, PortalTask::OrderResponse(1, OrderResponse::OrderFill(OrderFillResponse { order_id: 2, fill_size: 10, fill_price: 200 })))));
}

#[test]
fn an_order_that_dies_returns_its_unfilled_reserve() {
    let mut p = portal();
    // an immediate-or-cancel buy that finds nothing dies, and bob's 1000 come back
    let tasks = p.process_request(1, PortalRequest::NewOrder(2, order(Direction::Buy, 10, 100, LimitOrMarket::Limit, TimeInForce::IOC, 1)));
    assert!(matches!(tasks.last().unwrap(), PortalTask::OrderResponse(2, OrderResponse::OrderDead(OrderDeadResponse { order_id: 1 }))));
    let tasks = p.process_request(2, PortalRequest::NewOrder(2, order(Direction::Buy, 10, 100, LimitOrMarket::Limit, TimeInForce::Day, 2)));
    assert!(matches!(&tasks[0], PortalTask::OrderAck(2, 2, 2)));
    let _ = p.process_request(3, PortalRequest::CancelOrder(2, 2));
    // alice's immediate-or-cancel sell of all 50 shares finds no bid: the shares come back
    let tasks = p.process_request(4, PortalRequest::NewOrder(1, order(Direction::Sell, 50, 200, LimitOrMarket::Limit, TimeInForce::IOC, 3)));
    assert!(matches!(tasks.last().unwrap(), PortalTask::OrderResponse(1, OrderResponse::OrderDead(OrderDeadResponse { order_id: 3 }))));
    let tasks = p.process_request(5, PortalRequest::NewOrder(1, order(Direction::Sell, 50, 200, LimitOrMarket::Limit, TimeInForce::Day, 4)));
    assert!(matches!(&tasks[0], PortalTask::OrderAck(1, 5, 4)));
    let _ = p.process_request(6, PortalRequest::CancelOrder(1, 4));
    // alice offers 10 at 50; bob's immediate-or-cancel buy of 20 at 50 reserves 1000,
    // fills 10 for 500, and the 500 reserved for the other 10 come back
    let _ = p.process_request(7, PortalRequest::NewOrder(1, order(Direction::Sell, 10, 50, LimitOrMarket::Limit, TimeInForce::Day, 5)));
    let tasks = p.process_request(8, PortalRequest::NewOrder(2, order(Direction::Buy, 20, 50, LimitOrMarket::Limit, TimeInForce::IOC, 6)));
    assert!(tasks.iter().any(|t| matches!(t, PortalTask::OrderResponse(2, OrderResponse::OrderFill(OrderFillResponse { order_id: 6, fill_size: 10, fill_price: 50 })))));
    assert!(matches!(tasks.last().unwrap(), PortalTask::OrderResponse(2, OrderResponse::OrderDead(OrderDeadResponse { order_id: 6 }))));
    // bob holds 500: 10 at 50 are within reach, then nothing more
    let tasks = p.process_request(9, PortalRequest::NewOrder(2, order(Direction::Buy, 10, 50, LimitOrMarket::Limit, TimeInForce::Day, 7)));
    assert!(matches!(&tasks[0], PortalTask::OrderAck(2, 9, 7)));
    let tasks = p.process_request(10, PortalRequest::NewOrder(2, order(Direction::Buy, 10, 5, LimitOrMarket::Limit, TimeInForce::Day, 8)));
    assert!(matches!(&tasks[0], PortalTask::OrderReject(2, 10, _)));
}

#[test]
fn a_stock_without_lot_size_is_listed_but_its_orders_cannot_be_checked() {
    let zero = ("ZERO".to_string(), StockRecord { close_price: 100, lot_size: 0, mpf: 5, name: "Zero".to_string() });
    let mut p = Portal::new(vec![Account::new(1, "alice".to_string(), "pw1".to_string(), 10_000)], vec![aapl(), zero]);
    let mut o = order(Direction::Buy, 10, 100, LimitOrMarket::Limit, TimeInForce::Day, 1);
    o.ticker = "ZERO".to_string();
    assert!(!p.can_check_request(&PortalRequest::NewOrder(1, o)));
    // at an invalid price the size is never checked, so the order is simply rejected
    let mut o = order(Direction::Buy, 10, 101, LimitOrMarket::Limit, TimeInForce::Day, 1);
    o.ticker = "ZERO".to_string();
    let req = PortalRequest::NewOrder(1, o);
    assert!(p.can_check_request(&req));
    let tasks = p.process_request(1, req);
    assert!(matches!(&tasks[0], PortalTask::OrderReject(1, 1, _)));
    assert!(p.can_check_request(&PortalRequest::NewOrder(1, order(Direction::Buy, 10, 100, LimitOrMarket::Limit, TimeInForce::Day, 2))));
    assert!(p.can_check_request(&PortalRequest::CancelOrder(1, 3)));
}

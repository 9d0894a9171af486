use ses::portal::orderbook::OrderBook;
use ses::types::common::{Direction, LimitOrMarket, TimeInForce};
use ses::types::orderbook::{CancelOrderRequest, NewOrderRequest, OrderbookLog, OrderbookRequest};
use ses::types::portal::OrderResponse;

fn limit(order_id: u64, direction: Direction, size: u32, price: u64, timestamp: u64) -> NewOrderRequest {
    NewOrderRequest {
        order_id,
        direction,
        size,
        price,
        timestamp,
        limit_or_market: LimitOrMarket::Limit,
        time_in_force: TimeInForce::Day,
    }
}

fn filled_ids(logs: &[OrderbookLog]) -> Vec<u64> {
    logs.iter()
        .filter_map(|l| match l {
            OrderbookLog::OrderLog(OrderResponse::OrderFill(f)) => Some(f.order_id),
            _ => None,
        })
        .collect()
}

fn book() -> OrderBook {
    let mut b = OrderBook::new("AAPL".to_string());
    b.handle_request(OrderbookRequest::NewOrder(limit(1, Direction::Sell, 10, 100, 1)));
    b.handle_request(OrderbookRequest::NewOrder(limit(2, Direction::Sell, 10, 101, 2)));
    b.handle_request(OrderbookRequest::NewOrder(limit(3, Direction::Buy, 10, 90, 3)));
    b
}

#[test]
fn a_cancelled_order_is_never_filled_or_reported() {
    let mut b = book();
    b.handle_cancel_order(CancelOrderRequest { order_id: 1 });
    assert_eq!(b.best_sell_price(), Some(101));
    let logs = b.handle_request(OrderbookRequest::NewOrder(limit(4, Direction::Buy, 20, 105, 4)));
    assert_eq!(filled_ids(&logs), vec![2, 4]);
    assert_eq!(b.best_sell_price(), None);
    let logs = b.handle_request(OrderbookRequest::NewOrder(limit(5, Direction::Buy, 10, 200, 5)));
    assert!(filled_ids(&logs).is_empty());
}

#[test]
fn a_price_lookup_changes_nothing_later() {
    let mut looked = book();
    let mut plain = book();
    looked.handle_cancel_order(CancelOrderRequest { order_id: 1 });
    plain.handle_cancel_order(CancelOrderRequest { order_id: 1 });
    // looking up twice gives the same answer
    assert_eq!(looked.best_sell_price(), Some(101));
    assert_eq!(looked.best_sell_price(), Some(101));
    assert_eq!(looked.best_buy_price(), Some(90));
    assert_eq!(looked.best_buy_price(), Some(90));
    // later requests give the same logs with and without the lookups
    let r = limit(4, Direction::Buy, 20, 105, 4);
    let r2 = limit(4, Direction::Buy, 20, 105, 4);
    assert_eq!(looked.handle_request(OrderbookRequest::NewOrder(r)), plain.handle_request(OrderbookRequest::NewOrder(r2)));
    let s = limit(6, Direction::Sell, 30, 80, 5);
    let s2 = limit(6, Direction::Sell, 30, 80, 5);
    assert_eq!(looked.handle_request(OrderbookRequest::NewOrder(s)), plain.handle_request(OrderbookRequest::NewOrder(s2)));
    assert_eq!(looked.best_buy_price(), plain.best_buy_price());
    assert_eq!(looked.best_sell_price(), plain.best_sell_price());
}

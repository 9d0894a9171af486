use ses::portal::orderbook::OrderBook;
use ses::types::common::{Direction, LimitOrMarket, TimeInForce};
use ses::types::order::{BuyOrder, SellOrder};
use ses::types::orderbook::{NewOrderRequest, OrderbookLog};
use ses::types::portal::OrderResponse;
use std::cmp::Ordering;

fn limit_day(order_id: u64, direction: Direction, size: u32, price: u64, timestamp: u64) -> NewOrderRequest {
    NewOrderRequest {
        order_id,
        direction,
        size,
        price,
        timestamp,
        limit_or_market: LimitOrMarket::Limit,
        time_in_force: TimeInForce::Day,
    }
}

// The ids of the resting orders that a batch of logs fills, in order.
fn resting_fill_ids(logs: &Vec<OrderbookLog>, incoming: u64) -> Vec<u64> {
    let mut ids = Vec::new();
    for log in logs {
        if let OrderbookLog::OrderLog(OrderResponse::OrderFill(f)) = log {
            if f.order_id != incoming {
                ids.push(f.order_id);
            }
        }
    }
    ids
}

// Test the ordering of buy orders and sell orders
#[test]
fn test_buyorder_ordering() {
    let buy_order1 = BuyOrder { order_id: 1, size: 100, price: 100, timestamp: 5 };
    let buy_order2 = BuyOrder { order_id: 2, size: 100, price: 100, timestamp: 6 };
    let buy_order3 = BuyOrder { order_id: 3, size: 100, price: 101, timestamp: 7 };
    let buy_order4 = BuyOrder { order_id: 4, size: 100, price: 99, timestamp: 8 };
    assert_eq!(buy_order1.cmp(&buy_order2), Ordering::Greater);
    assert_eq!(buy_order1.cmp(&buy_order3), Ordering::Less);
    assert_eq!(buy_order1.cmp(&buy_order4), Ordering::Greater);
    assert_eq!(buy_order2.cmp(&buy_order3), Ordering::Less);
    assert_eq!(buy_order2.cmp(&buy_order4), Ordering::Greater);
    assert_eq!(buy_order3.cmp(&buy_order4), Ordering::Greater);

    // The book hands the buy orders out best first: 3, 1, 2, 4.
    let mut book = OrderBook::new("AAPL".to_string());
    for o in [buy_order4, buy_order3, buy_order2, buy_order1] {
        let _ = book.handle_new_order(limit_day(o.order_id, Direction::Buy, o.size, o.price, o.timestamp));
    }
    let logs = book.handle_new_order(limit_day(10, Direction::Sell, 400, 99, 9));
    assert_eq!(resting_fill_ids(&logs, 10), vec![3, 1, 2, 4]);
}

#[test]
fn test_sellorder_ordering() {
    let sell_order1 = SellOrder { order_id: 1, size: 100, price: 100, timestamp: 5 };
    let sell_order2 = SellOrder { order_id: 2, size: 100, price: 100, timestamp: 6 };
    let sell_order3 = SellOrder { order_id: 3, size: 100, price: 101, timestamp: 7 };
    let sell_order4 = SellOrder { order_id: 4, size: 100, price: 99, timestamp: 8 };
    assert_eq!(sell_order1.cmp(&sell_order2), Ordering::Greater);
    assert_eq!(sell_order1.cmp(&sell_order3), Ordering::Greater);
    assert_eq!(sell_order1.cmp(&sell_order4), Ordering::Less);
    assert_eq!(sell_order2.cmp(&sell_order3), Ordering::Greater);
    assert_eq!(sell_order2.cmp(&sell_order4), Ordering::Less);
    assert_eq!(sell_order3.cmp(&sell_order4), Ordering::Less);

    // The book hands the sell orders out best first: 4, 1, 2, 3.
    let mut book = OrderBook::new("AAPL".to_string());
    for o in [sell_order4, sell_order3, sell_order2, sell_order1] {
        let _ = book.handle_new_order(limit_day(o.order_id, Direction::Sell, o.size, o.price, o.timestamp));
    }
    let logs = book.handle_new_order(limit_day(10, Direction::Buy, 400, 101, 9));
    assert_eq!(resting_fill_ids(&logs, 10), vec![4, 1, 2, 3]);
}

#[test]
fn orders_with_the_same_id_are_equal() {
    let a = BuyOrder { order_id: 7, size: 1, price: 10, timestamp: 1 };
    let b = BuyOrder { order_id: 7, size: 5, price: 20, timestamp: 2 };
    let c = BuyOrder { order_id: 8, size: 1, price: 10, timestamp: 1 };
    assert!(a == b);
    assert!(a != c);
    assert_eq!(a.cmp(&c), Ordering::Equal);
    let s = SellOrder { order_id: 7, size: 1, price: 10, timestamp: 1 };
    let t = SellOrder { order_id: 9, size: 1, price: 10, timestamp: 1 };
    assert!(s != t);
    assert_eq!(s.cmp(&t), Ordering::Equal);
}

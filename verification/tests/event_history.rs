use ses::portal::event_history::EventHistory;
use ses::types::common::Direction;
use ses::types::event::{Event, OrderAdded, OrderExecuted, OrderRemoved};

fn same_event_list(actual: Vec<Event>, expected: Vec<Event>) -> bool {
    if actual == expected {
        true
    } else {
        // DBG
        println!("Expected: {:?}", expected);
        println!("Actual: {:?}", actual);
        false
    }
}

#[test]
fn test_event_history() {
    let mut event_history = EventHistory::new();
    let resps = vec![
        Event::OrderAdded(OrderAdded {
            order_id: 1,
            ticker: "AAPL".to_string(),
            direction: Direction::Buy,
            resting_size: 100,
            limit_price: 100,
        }),
        Event::OrderExecuted(OrderExecuted {
            order_id: 1,
            ticker: "AAPL".to_string(),
            execution_size: 100,
            execution_price: 100,
        }),
        Event::OrderRemoved(OrderRemoved { order_id: 1 }),
    ];
    event_history.update_by_event(resps[0].clone());
    event_history.update_by_event(resps[1].clone());
    event_history.update_by_event(resps[2].clone());
    let expected = vec![
        Event::OrderAdded(OrderAdded {
            order_id: 1,
            ticker: "AAPL".to_string(),
            direction: Direction::Buy,
            resting_size: 100,
            limit_price: 100,
        }),
        Event::OrderExecuted(OrderExecuted {
            order_id: 1,
            ticker: "AAPL".to_string(),
            execution_size: 100,
            execution_price: 100,
        }),
        Event::OrderRemoved(OrderRemoved { order_id: 1 }),
    ];
    let actual: Vec<Event> = event_history.get_history();
    assert!(same_event_list(actual, expected));
}

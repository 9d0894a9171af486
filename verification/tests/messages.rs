use ses::portal::account::Account;
use ses::portal::Portal;
use ses::server::stock_exchange::rpc_order_request::{CancelOrder, Login, NewOrder, Request};
use ses::server::stock_exchange::rpc_order_response::{CancelRej, LoginAck, OrderAck, OrderDead, OrderFill, OrderRej, Response};
use ses::server::stock_exchange::rpc_subscribe_response;
use ses::server::stock_exchange::{RpcDirection, RpcLimitOrMarket, RpcOrderRequest, RpcOrderResponse, RpcTimeInForce};
use ses::server::{login_session, process_task, Dispatch};
use ses::types::common::{Direction, LimitOrMarket, TimeInForce};
use ses::types::event::{Event, OrderAdded, OrderExecuted, OrderRemoved};
use ses::types::orderbook::{OrderDeadResponse, OrderFillResponse};
use ses::types::portal::{OrderResponse, PortalRequest, PortalTask};
use ses::utils::{
    get_timestamp, is_parsable_order_request, parse_direction, parse_limit_or_market, parse_order_request, parse_seqnum,
    parse_subscribe_request, parse_time_in_force, wrap_cancel_reject, wrap_direction, wrap_event,
    wrap_order_ack, wrap_order_dead_response, wrap_order_reject, wrap_order_response,
};

#[test]
fn codes_round_trip() {
    assert_eq!(parse_direction(0), Direction::Buy);
    assert_eq!(parse_direction(1), Direction::Sell);
    assert_eq!(wrap_direction(Direction::Buy), 0);
    assert_eq!(wrap_direction(Direction::Sell), 1);
    assert_eq!(wrap_direction(parse_direction(RpcDirection::Sell.code())), 1);
    assert_eq!(parse_limit_or_market(RpcLimitOrMarket::Limit.code()), LimitOrMarket::Limit);
    assert_eq!(parse_limit_or_market(RpcLimitOrMarket::Market.code()), LimitOrMarket::Market);
    assert_eq!(parse_time_in_force(RpcTimeInForce::Day.code()), TimeInForce::Day);
    assert_eq!(parse_time_in_force(RpcTimeInForce::Ioc.code()), TimeInForce::IOC);
}

#[test]
fn timestamp_is_after_2020() {
    assert!(get_timestamp() > 1_577_836_800);
}

#[test]
fn requests_parse() {
    let new_order = RpcOrderRequest {
        request: Some(Request::NewOrder(NewOrder {
            seqnum: 3,
            ticker: "AAPL".to_string(),
            direction: 1,
            size: 20,
            price: 150,
            limit_or_market: 0,
            time_in_force: 1,
        })),
    };
    assert_eq!(parse_seqnum(&new_order), 3);
    match parse_order_request(9, new_order) {
        PortalRequest::NewOrder(inv, r) => {
            assert_eq!(inv, 9);
            assert_eq!(r.ticker, "AAPL");
            assert_eq!(r.direction, Direction::Sell);
            assert_eq!((r.size, r.price), (20, 150));
            assert_eq!(r.limit_or_market, LimitOrMarket::Limit);
            assert_eq!(r.time_in_force, TimeInForce::IOC);
        }
        _ => panic!("expected a new order"),
    }
    let cancel = RpcOrderRequest { request: Some(Request::CancelOrder(CancelOrder { seqnum: 4, order_id: 12 })) };
    assert_eq!(parse_seqnum(&cancel), 4);
    assert!(matches!(parse_order_request(9, cancel), PortalRequest::CancelOrder(9, 12)));
    let login = RpcOrderRequest {
        request: Some(Request::Login(Login { seqnum: 5, investor_id: 1, password: "x".to_string() })),
    };
    assert_eq!(parse_seqnum(&login), 5);
    assert!(matches!(parse_subscribe_request(6), PortalRequest::EventHistory(6)));
}

#[test]
fn responses_wrap() {
    assert_eq!(
        wrap_order_reject(1, "no".to_string()),
        RpcOrderResponse { response: Some(Response::Rej(OrderRej { seqnum: 1, reason: "no".to_string() })) }
    );
    assert_eq!(
        wrap_cancel_reject(2, "no".to_string()),
        RpcOrderResponse { response: Some(Response::CancelRej(CancelRej { seqnum: 2, reason: "no".to_string() })) }
    );
    assert_eq!(
        wrap_order_ack(3, 44),
        RpcOrderResponse { response: Some(Response::Ack(OrderAck { seqnum: 3, order_id: 44 })) }
    );
    assert_eq!(
        wrap_order_response(OrderResponse::OrderFill(OrderFillResponse { order_id: 5, fill_size: 10, fill_price: 99 })),
        RpcOrderResponse { response: Some(Response::Fill(OrderFill { order_id: 5, price: 99, size: 10 })) }
    );
    assert_eq!(
        wrap_order_dead_response(OrderDeadResponse { order_id: 6 }),
        RpcOrderResponse { response: Some(Response::Dead(OrderDead { order_id: 6 })) }
    );
}

#[test]
fn events_wrap() {
    let added = wrap_event(Event::OrderAdded(OrderAdded {
        order_id: 1,
        ticker: "AAPL".to_string(),
        direction: Direction::Sell,
        resting_size: 30,
        limit_price: 12,
    }));
    assert_eq!(
        added.response,
        Some(rpc_subscribe_response::Response::Added(rpc_subscribe_response::OrderAdded {
            order_id: 1,
            ticker: "AAPL".to_string(),
            direction: 1,
            limit_price: 12,
            size: 30,
        }))
    );
    let executed = wrap_event(Event::OrderExecuted(OrderExecuted {
        order_id: 2,
        ticker: "AAPL".to_string(),
        execution_size: 5,
        execution_price: 11,
    }));
    assert_eq!(
        executed.response,
        Some(rpc_subscribe_response::Response::Executed(rpc_subscribe_response::OrderExecuted {
            order_id: 2,
            ticker: "AAPL".to_string(),
            execution_price: 11,
            execution_size: 5,
        }))
    );
    let removed = wrap_event(Event::OrderRemoved(OrderRemoved { order_id: 3 }));
    assert_eq!(
        removed.response,
        Some(rpc_subscribe_response::Response::Removed(rpc_subscribe_response::OrderRemoved { order_id: 3 }))
    );
}

#[test]
fn tasks_route() {
    let history = PortalTask::EventHistory(
        4,
        vec![Event::OrderRemoved(OrderRemoved { order_id: 1 }), Event::OrderRemoved(OrderRemoved { order_id: 2 })],
    );
    let d = process_task(history);
    assert_eq!(d.len(), 2);
    assert_eq!(d[0], Dispatch::ToSubscriber(4, wrap_event(Event::OrderRemoved(OrderRemoved { order_id: 1 }))));
    assert_eq!(d[1], Dispatch::ToSubscriber(4, wrap_event(Event::OrderRemoved(OrderRemoved { order_id: 2 }))));
    let d = process_task(PortalTask::IncrementalEvent(Event::OrderRemoved(OrderRemoved { order_id: 7 })));
    assert_eq!(d, vec![Dispatch::ToAllSubscribers(wrap_event(Event::OrderRemoved(OrderRemoved { order_id: 7 })))]);
    let d = process_task(PortalTask::OrderAck(1, 2, 3));
    assert_eq!(d, vec![Dispatch::ToInvestor(1, wrap_order_ack(2, 3))]);
    let d = process_task(PortalTask::OrderReject(1, 2, "r".to_string()));
    assert_eq!(d, vec![Dispatch::ToInvestor(1, wrap_order_reject(2, "r".to_string()))]);
    let d = process_task(PortalTask::CancelReject(1, 2, "c".to_string()));
    assert_eq!(d, vec![Dispatch::ToInvestor(1, wrap_cancel_reject(2, "c".to_string()))]);
    let d = process_task(PortalTask::OrderResponse(8, OrderResponse::OrderDead(OrderDeadResponse { order_id: 9 })));
    assert_eq!(d, vec![Dispatch::ToInvestor(8, wrap_order_dead_response(OrderDeadResponse { order_id: 9 }))]);
}

#[test]
fn sessions_start_with_a_login() {
    let acc = Account::new(1, "alice".to_string(), "pw".to_string(), 100);
    let mut portal = Portal::new(vec![acc], vec![]);
    let login = |pw: &str, seq: u64| RpcOrderRequest {
        request: Some(Request::Login(Login { seqnum: seq, investor_id: 1, password: pw.to_string() })),
    };
    let (id, r) = login_session(&mut portal, Some(login("bad", 1)));
    assert_eq!(id, None);
    match r.response {
        Some(Response::LoginRej(rej)) => assert_eq!((rej.seqnum, rej.reason.as_str()), (1, "login failed")),
        _ => panic!("expected a rejection"),
    }
    let (id, r) = login_session(&mut portal, Some(login("pw", 2)));
    assert_eq!(id, Some(1));
    assert_eq!(r, RpcOrderResponse { response: Some(Response::LoginAck(LoginAck { seqnum: 2 })) });
    let (id, _) = login_session(&mut portal, Some(login("pw", 3)));
    assert_eq!(id, None);
    let (id, r) = login_session(&mut portal, None);
    assert_eq!(id, None);
    match r.response {
        Some(Response::LoginRej(rej)) => assert_eq!((rej.seqnum, rej.reason.as_str()), (0, "invalid first request")),
        _ => panic!("expected a rejection"),
    }
}

#[test]
fn only_valid_orders_and_cancellations_are_parsable() {
    let login = RpcOrderRequest { request: Some(Request::Login(Login { seqnum: 0, investor_id: 1, password: "pw".to_string() })) };
    assert!(!is_parsable_order_request(&login));
    assert!(!is_parsable_order_request(&RpcOrderRequest { request: None }));
    let cancel = RpcOrderRequest { request: Some(Request::CancelOrder(CancelOrder { seqnum: 2, order_id: 9 })) };
    assert!(is_parsable_order_request(&cancel));
    let order = |direction: i32, limit_or_market: i32, time_in_force: i32| RpcOrderRequest {
        request: Some(Request::NewOrder(NewOrder {
            seqnum: 1,
            ticker: "AAPL".to_string(),
            direction,
            size: 10,
            price: 100,
            limit_or_market,
            time_in_force,
        })),
    };
    assert!(is_parsable_order_request(&order(0, 1, 0)));
    assert!(is_parsable_order_request(&order(1, 0, 1)));
    assert!(!is_parsable_order_request(&order(2, 0, 0)));
    assert!(!is_parsable_order_request(&order(0, -1, 0)));
    assert!(!is_parsable_order_request(&order(0, 0, 2)));
}

use ses::investor::{Instruction, InvestorTest};
use ses::server::stock_exchange::rpc_order_request::{Login, NewOrder, Request};
use ses::server::stock_exchange::RpcOrderRequest;
use ses::types::common::{Direction, LimitOrMarket, TimeInForce};
use ses::types::portal::PortalRequest;
use ses::utils::{parse_order_request, parse_seqnum};

fn investor() -> InvestorTest {
    InvestorTest {
        id: 7,
        password: "secret".to_string(),
        instructions: vec![
            Instruction {
                ticker: "AAPL".to_string(),
                direction: Direction::Buy,
                size: 100,
                price: 15_025,
                limit_or_market: LimitOrMarket::Limit,
                time_in_force: TimeInForce::Day,
            },
            Instruction {
                ticker: "MSFT".to_string(),
                direction: Direction::Sell,
                size: 30,
                price: 41_000,
                limit_or_market: LimitOrMarket::Market,
                time_in_force: TimeInForce::IOC,
            },
        ],
    }
}

#[test]
fn session_starts_with_login_then_numbers_orders() {
    let requests = investor().to_request_list();
    assert_eq!(requests.len(), 3);
    assert_eq!(
        requests[0],
        RpcOrderRequest {
            request: Some(Request::Login(Login { seqnum: 0, investor_id: 7, password: "secret".to_string() }))
        }
    );
    assert_eq!(
        requests[1],
        RpcOrderRequest {
            request: Some(Request::NewOrder(NewOrder {
                seqnum: 1,
                ticker: "AAPL".to_string(),
                direction: 0,
                size: 100,
                price: 15_025,
                limit_or_market: 0,
                time_in_force: 0,
            }))
        }
    );
    assert_eq!(
        requests[2],
        RpcOrderRequest {
            request: Some(Request::NewOrder(NewOrder {
                seqnum: 2,
                ticker: "MSFT".to_string(),
                direction: 1,
                size: 30,
                price: 41_000,
                limit_or_market: 1,
                time_in_force: 1,
            }))
        }
    );
}

#[test]
fn session_without_orders_is_only_a_login() {
    let t = InvestorTest { id: 1, password: "pw".to_string(), instructions: vec![] };
    let requests = t.to_request_list();
    assert_eq!(requests.len(), 1);
    assert_eq!(parse_seqnum(&requests[0]), 0);
}

#[test]
fn orders_survive_their_wire_form() {
    let mut requests = investor().to_request_list();
    let second = requests.pop().unwrap();
    let first = requests.pop().unwrap();
    assert_eq!(parse_seqnum(&first), 1);
    match parse_order_request(7, first) {
        PortalRequest::NewOrder(7, req) => {
            assert_eq!(req.ticker, "AAPL");
            assert_eq!(req.direction, Direction::Buy);
            assert_eq!((req.size, req.price), (100, 15_025));
            assert_eq!(req.limit_or_market, LimitOrMarket::Limit);
            assert_eq!(req.time_in_force, TimeInForce::Day);
        }
        _ => panic!("expected a new order"),
    }
    match parse_order_request(7, second) {
        PortalRequest::NewOrder(7, req) => {
            assert_eq!(req.ticker, "MSFT");
            assert_eq!(req.direction, Direction::Sell);
            assert_eq!((req.size, req.price), (30, 41_000));
            assert_eq!(req.limit_or_market, LimitOrMarket::Market);
            assert_eq!(req.time_in_force, TimeInForce::IOC);
        }
        _ => panic!("expected a new order"),
    }
}

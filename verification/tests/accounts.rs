use ses::portal::account::Account;
use ses::portal::account_manager::AccountManager;
use ses::portal::order_info::OrderRecord;
use ses::portal::stock_manager::{StockManager, StockRecord};
use ses::portal::utils::orderresponse_to_acc_update;
use ses::ticker_map::TickerMap;
use ses::types::account_manager::{AccountUpdate, PotentialOrder};
use ses::types::common::Direction;
use ses::types::orderbook::{OrderDeadResponse, OrderFillResponse};
use ses::types::portal::OrderResponse;

#[test]
fn ticker_map_keeps_one_value_per_key() {
    let mut m: TickerMap<u32> = TickerMap::new();
    m.insert("A".to_string(), 1);
    m.insert("B".to_string(), 2);
    m.insert("A".to_string(), 3);
    assert_eq!(m.get(&"A".to_string()), Some(&3));
    assert_eq!(m.get(&"B".to_string()), Some(&2));
    assert!(!m.contains_key(&"C".to_string()));
    assert_eq!(m.remove(&"A".to_string()), Some(3));
    assert_eq!(m.remove(&"A".to_string()), None);
    assert_eq!(m.get(&"B".to_string()), Some(&2));
}

#[test]
fn account_updates() {
    let mut a = Account::new(1, "a".to_string(), "p".to_string(), 100);
    a.update(AccountUpdate::UpdCash(1, -30));
    assert_eq!(a.cash, 70);
    a.update(AccountUpdate::AddPos(1, "X".to_string(), 5));
    a.update(AccountUpdate::AddPos(1, "X".to_string(), 7));
    assert_eq!(a.positions.get(&"X".to_string()), Some(&12));
    a.update(AccountUpdate::MinusPos(1, "X".to_string(), 2));
    assert_eq!(a.positions.get(&"X".to_string()), Some(&10));
    // taking shares of a stock not held changes nothing
    a.update(AccountUpdate::MinusPos(1, "Y".to_string(), 2));
    assert!(!a.positions.contains_key(&"Y".to_string()));
    assert!(a.valid_potential_order(&PotentialOrder::PotentialBuy(70)));
    assert!(!a.valid_potential_order(&PotentialOrder::PotentialBuy(71)));
    assert!(a.valid_potential_order(&PotentialOrder::PotentialSell(10, "X".to_string())));
    assert!(!a.valid_potential_order(&PotentialOrder::PotentialSell(11, "X".to_string())));
    assert!(!a.valid_potential_order(&PotentialOrder::PotentialSell(1, "Y".to_string())));
}

#[test]
fn cash_saturates() {
    let mut a = Account::new(1, "a".to_string(), "p".to_string(), i128::MAX - 1);
    a.update(AccountUpdate::UpdCash(1, 5));
    assert_eq!(a.cash, i128::MAX);
}

#[test]
fn reservation_takes_cash_or_shares() {
    let mut m = AccountManager::new();
    let mut a = Account::new(1, "a".to_string(), "p".to_string(), 100);
    a.add_position("X".to_string(), 10);
    m.add_account(1, a);
    assert!(m.valid_potential_order(&1, &PotentialOrder::PotentialBuy(100)));
    m.update_by_potential_order(1, PotentialOrder::PotentialBuy(60));
    assert!(!m.valid_potential_order(&1, &PotentialOrder::PotentialBuy(41)));
    assert!(m.valid_potential_order(&1, &PotentialOrder::PotentialBuy(40)));
    m.update_by_potential_order(1, PotentialOrder::PotentialSell(4, "X".to_string()));
    assert!(m.valid_potential_order(&1, &PotentialOrder::PotentialSell(6, "X".to_string())));
    assert!(!m.valid_potential_order(&1, &PotentialOrder::PotentialSell(7, "X".to_string())));
    // an unknown investor covers nothing
    assert!(!m.valid_potential_order(&2, &PotentialOrder::PotentialBuy(0)));
}

#[test]
fn stock_checks() {
    let mut s = StockManager::new();
    s.bind_stock("X".to_string(), StockRecord { close_price: 50, lot_size: 100, mpf: 5, name: "x".to_string() });
    assert!(s.check_valid_order(&"X".to_string(), &55, &200));
    assert!(!s.check_valid_order(&"X".to_string(), &56, &200));
    assert!(!s.check_valid_order(&"X".to_string(), &55, &150));
    assert!(!s.check_valid_order(&"X".to_string(), &55, &0));
    assert!(!s.check_valid_order(&"Y".to_string(), &55, &200));
    assert_eq!(s.get_close_price(&"X".to_string()), Some(50));
    assert_eq!(s.get_close_price(&"Y".to_string()), None);
}

fn record(direction: Direction) -> OrderRecord {
    OrderRecord { inv_id: 3, ticker: "X".to_string(), direction, limit_price: 10, initial_size: 100 }
}

#[test]
fn settlement_of_responses() {
    let fill = OrderResponse::OrderFill(OrderFillResponse { order_id: 1, fill_size: 4, fill_price: 7 });
    let dead = OrderResponse::OrderDead(OrderDeadResponse { order_id: 1 });
    let ups = orderresponse_to_acc_update(fill, &record(Direction::Buy), None);
    assert_eq!(ups.len(), 2);
    assert!(matches!(ups[0], AccountUpdate::UpdCash(3, 12)));
    assert!(matches!(&ups[1], AccountUpdate::AddPos(3, t, 4) if t == "X"));
    let ups = orderresponse_to_acc_update(fill, &record(Direction::Sell), None);
    assert_eq!(ups.len(), 1);
    assert!(matches!(ups[0], AccountUpdate::UpdCash(3, 28)));
    let ups = orderresponse_to_acc_update(dead, &record(Direction::Buy), Some(6));
    assert_eq!(ups.len(), 1);
    assert!(matches!(ups[0], AccountUpdate::UpdCash(3, 60)));
    let ups = orderresponse_to_acc_update(dead, &record(Direction::Sell), Some(6));
    assert!(matches!(&ups[0], AccountUpdate::AddPos(3, t, 6) if t == "X"));
    assert!(orderresponse_to_acc_update(dead, &record(Direction::Buy), None).is_empty());
}

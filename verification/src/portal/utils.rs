//! The account changes that an order response settles.

use vstd::prelude::*;
use super::order_info::OrderRecord;
use crate::types::account_manager::AccountUpdate;
use crate::types::common::{Cash, Direction, Price, Size};
use crate::types::portal::OrderResponse;

verus! {

/// Cash of `size` shares at `price`.
pub open spec fn cash_of(size: Size, price: Price) -> Cash {
    (size * price) as Cash
}

/// The account updates that settle a response about an order.
///
/// A buy order's cash was reserved at its limit price when it was accepted:
/// a fill returns the difference between the limit and the fill price and
/// adds the shares; when the order dies, the cash of its resting shares is
/// returned. A sell order's shares were reserved when it was accepted: a
/// fill adds the cash, and when the order dies its resting shares are
/// returned.
pub open spec fn settlement(resp: OrderResponse, rec: OrderRecord, resting: Option<Size>) -> Seq<AccountUpdate> {
    match resp {
        OrderResponse::OrderFill(f) => match rec.direction {
            Direction::Buy => seq![
                AccountUpdate::UpdCash(
                    rec.inv_id,
                    (f.fill_size * (rec.limit_price - f.fill_price)) as Cash,
                ),
                AccountUpdate::AddPos(rec.inv_id, rec.ticker, f.fill_size),
            ],
            Direction::Sell => seq![AccountUpdate::UpdCash(rec.inv_id, cash_of(f.fill_size, f.fill_price))],
        },
        OrderResponse::OrderDead(_) => match (rec.direction, resting) {
            (Direction::Buy, Some(r)) => seq![AccountUpdate::UpdCash(rec.inv_id, cash_of(r, rec.limit_price))],
            (Direction::Sell, Some(r)) => seq![AccountUpdate::AddPos(rec.inv_id, rec.ticker, r)],
            (_, None) => Seq::empty(),
        },
    }
}

/// The cash of some shares is never negative.
pub proof fn lemma_cash_of_nonneg(size: Size, price: Price)
    ensures
        cash_of(size, price) >= 0,
{
    assert(0 <= size * price <= 0xffff_ffff_ffff_ffff_ffff_ffff) by (nonlinear_arith)
        requires
            0 <= size <= 0xffff_ffff,
            0 <= price <= 0xffff_ffff_ffff_ffff,
    ;
}

/// `size * price`, which always fits in `Cash`.
pub fn cash_for(size: Size, price: Price) -> (c: Cash)
    ensures
        c == cash_of(size, price),
{
    let s: i128 = size as i128;
    let p: i128 = price as i128;
    assert(0 <= s * p <= 0xffff_ffff_ffff_ffff_ffff_ffff) by (nonlinear_arith)
        requires
            0 <= s <= 0xffff_ffff,
            0 <= p <= 0xffff_ffff_ffff_ffff,
    ;
    s * p
}

/// Generates the account updates that settle one order response.
pub fn orderresponse_to_acc_update(
    orderbook_log: OrderResponse,
    order_rec: &OrderRecord,
    resting_size: Option<Size>,
) -> (acc_updates: Vec<AccountUpdate>)
    ensures
        acc_updates@ == settlement(orderbook_log, *order_rec, resting_size),
{
    let mut acc_updates: Vec<AccountUpdate> = Vec::new();
    match orderbook_log {
        OrderResponse::OrderFill(order_fill) => match order_rec.direction {
            Direction::Buy => {
                let s: i128 = order_fill.fill_size as i128;
                let d: i128 = (order_rec.limit_price as i128) - (order_fill.fill_price as i128);
                assert(-0xffff_ffff_ffff_ffff_ffff_ffff <= s * d <= 0xffff_ffff_ffff_ffff_ffff_ffff) by (nonlinear_arith)
                    requires
                        0 <= s <= 0xffff_ffff,
                        -0xffff_ffff_ffff_ffff <= d <= 0xffff_ffff_ffff_ffff,
                ;
                acc_updates.push(AccountUpdate::UpdCash(order_rec.inv_id, s * d));
                acc_updates.push(AccountUpdate::AddPos(
                    order_rec.inv_id,
                    order_rec.ticker.clone(),
                    order_fill.fill_size,
                ));
            },
            Direction::Sell => {
                acc_updates.push(AccountUpdate::UpdCash(
                    order_rec.inv_id,
                    cash_for(order_fill.fill_size, order_fill.fill_price),
                ));
            },
        },
        OrderResponse::OrderDead(_order_dead) => match order_rec.direction {
            Direction::Buy => {
                if let Some(resting_size) = resting_size {
                    acc_updates.push(AccountUpdate::UpdCash(
                        order_rec.inv_id,
                        cash_for(resting_size, order_rec.limit_price),
                    ));
                }
            },
            Direction::Sell => {
                if let Some(resting_size) = resting_size {
                    acc_updates.push(AccountUpdate::AddPos(
                        order_rec.inv_id,
                        order_rec.ticker.clone(),
                        resting_size,
                    ));
                }
            },
        },
    }
    assert(acc_updates@ =~= settlement(orderbook_log, *order_rec, resting_size));
    acc_updates
}

} // verus!

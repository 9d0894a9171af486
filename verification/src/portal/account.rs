//! The account of one investor: cash and share positions.

use vstd::prelude::*;
use crate::types::account_manager::{AccountUpdate, PotentialOrder};
use crate::types::common::{AccountName, Cash, InvId, Password, Size, Ticker};
use crate::ticker_map::TickerMap;

verus! {

/// One investor's account.
pub struct Account {
    pub inv_id: InvId,
    pub acc_name: AccountName,
    pub password: Password,
    pub cash: Cash,
    pub positions: TickerMap<Size>,
}

/// The abstract state of an account.
pub struct AccountView {
    pub inv_id: InvId,
    pub acc_name: Seq<char>,
    pub password: Seq<char>,
    pub cash: Cash,
    pub positions: Map<Seq<char>, Size>,
}

impl View for Account {
    type V = AccountView;

    open spec fn view(&self) -> AccountView {
        AccountView {
            inv_id: self.inv_id,
            acc_name: self.acc_name@,
            password: self.password@,
            cash: self.cash,
            positions: self.positions@,
        }
    }
}

/// Cash after adding `delta`, held within the range of `Cash`.
pub open spec fn add_cash(cash: Cash, delta: Cash) -> Cash {
    let x = cash + delta;
    if x > i128::MAX {
        i128::MAX
    } else if x < i128::MIN {
        i128::MIN
    } else {
        x as Cash
    }
}

/// Whether an account can cover an order: enough cash for a buy, or at least
/// the order's shares of the stock for a sell.
pub open spec fn covers(a: AccountView, p: PotentialOrder) -> bool {
    match p {
        PotentialOrder::PotentialBuy(total_price) => a.cash >= total_price,
        PotentialOrder::PotentialSell(size, ticker) => a.positions.contains_key(ticker@)
            && a.positions[ticker@] >= size,
    }
}

/// An account after an update: cash changes by the amount (held within the
/// range of `Cash`); added shares are added to the position, or open it
/// (held within the range of `Size`); taken shares are taken from an
/// existing position (not below zero) and ignored when there is none.
pub open spec fn account_after(a: AccountView, upd: AccountUpdate) -> AccountView {
    match upd {
        AccountUpdate::UpdCash(_, delta) => AccountView { cash: add_cash(a.cash, delta), ..a },
        AccountUpdate::AddPos(_, ticker, add_size) => AccountView {
            positions: a.positions.insert(
                ticker@,
                if a.positions.contains_key(ticker@) {
                    if a.positions[ticker@] + add_size > u32::MAX {
                        u32::MAX
                    } else {
                        (a.positions[ticker@] + add_size) as Size
                    }
                } else {
                    add_size
                },
            ),
            ..a
        },
        AccountUpdate::MinusPos(_, ticker, minus_size) => if a.positions.contains_key(ticker@) {
            AccountView {
                positions: a.positions.insert(
                    ticker@,
                    if a.positions[ticker@] >= minus_size {
                        (a.positions[ticker@] - minus_size) as Size
                    } else {
                        0
                    },
                ),
                ..a
            }
        } else {
            a
        },
    }
}

impl Account {
    /// An account with cash and no position.
    pub fn new(inv_id: InvId, acc_name: AccountName, password: Password, cash: Cash) -> (a: Self)
        ensures
            a@ == (AccountView {
                inv_id,
                acc_name: acc_name@,
                password: password@,
                cash,
                positions: Map::empty(),
            }),
    {
        Account { inv_id, acc_name, password, cash, positions: TickerMap::new() }
    }

    /// Sets the position in one stock.
    pub fn add_position(&mut self, ticker: Ticker, size: Size)
        ensures
            final(self)@ == (AccountView { positions: old(self)@.positions.insert(ticker@, size), ..old(self)@ }),
    {
        self.positions.insert(ticker, size);
    }

    /// Whether the account can cover a potential order.
    pub fn valid_potential_order(&self, p_order: &PotentialOrder) -> (r: bool)
        ensures
            r == covers(self@, *p_order),
    {
        match p_order {
            PotentialOrder::PotentialBuy(total_price) => self.cash >= *total_price,
            PotentialOrder::PotentialSell(size, ticker) => match self.positions.get(ticker) {
                Some(own_size) => *own_size >= *size,
                None => false,
            },
        }
    }

    /// Applies an update to the account's cash or positions.
    pub fn update(&mut self, update: AccountUpdate)
        ensures
            final(self)@ == account_after(old(self)@, update),
    {
        match update {
            AccountUpdate::UpdCash(_inv_id, delta_cash) => {
                self.cash = match self.cash.checked_add(delta_cash) {
                    Some(c) => c,
                    None => if delta_cash > 0 {
                        i128::MAX
                    } else {
                        i128::MIN
                    },
                };
            },
            AccountUpdate::AddPos(_inv_id, ticker, add_size) => {
                let new_size: Size = match self.positions.get(&ticker) {
                    Some(size) => size.saturating_add(add_size),
                    None => add_size,
                };
                self.positions.insert(ticker, new_size);
            },
            AccountUpdate::MinusPos(_inv_id, ticker, minus_size) => {
                let current: Option<Size> = match self.positions.get(&ticker) {
                    Some(size) => Some(*size),
                    None => None,
                };
                if let Some(size) = current {
                    self.positions.insert(ticker, size.saturating_sub(minus_size));
                }
            },
        }
    }
}

} // verus!

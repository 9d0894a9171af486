//! All investors' accounts, and who is logged in.

use vstd::prelude::*;
use super::account::{Account, AccountView, account_after, covers};
use crate::types::account_manager::{AccountUpdate, PotentialOrder};
use crate::types::common::{InvId, Password};
use crate::utils::{get_inv_id, update_inv_id};
use std::collections::{HashMap, HashSet};

verus! {

broadcast use vstd::std_specs::hash::group_hash_axioms;

/// The accounts by investor id, and the investors logged in.
pub struct AccountManager {
    accounts: HashMap<InvId, Account>,
    login_accs: HashSet<InvId>,
}

/// The abstract state of the account manager.
pub struct AccountsView {
    pub accounts: Map<InvId, AccountView>,
    pub logged_in: Set<InvId>,
}

impl View for AccountManager {
    type V = AccountsView;

    closed spec fn view(&self) -> AccountsView {
        AccountsView {
            accounts: self.accounts@.map_values(|a: Account| a@),
            logged_in: self.login_accs@,
        }
    }
}

/// Whether investor `inv_id` has an account that covers the order.
pub open spec fn accounts_cover(accounts: Map<InvId, AccountView>, inv_id: InvId, p: PotentialOrder) -> bool {
    accounts.contains_key(inv_id) && covers(accounts[inv_id], p)
}

/// The accounts after an update: the account it names changes, if there is
/// one.
pub open spec fn accounts_after(accounts: Map<InvId, AccountView>, upd: AccountUpdate) -> Map<InvId, AccountView> {
    let id = update_inv_id(upd);
    if accounts.contains_key(id) {
        accounts.insert(id, account_after(accounts[id], upd))
    } else {
        accounts
    }
}

/// Whether a login succeeds: the account exists, the password matches, and
/// the investor is not logged in yet.
pub open spec fn login_succeeds(v: AccountsView, inv_id: InvId, password: Seq<char>) -> bool {
    &&& v.accounts.contains_key(inv_id)
    &&& v.accounts[inv_id].password == password
    &&& !v.logged_in.contains(inv_id)
}

/// The update that reserves what an order needs: the cash of a buy, the
/// shares of a sell.
pub open spec fn reservation(inv_id: InvId, p: PotentialOrder) -> AccountUpdate {
    match p {
        PotentialOrder::PotentialBuy(total_price) => AccountUpdate::UpdCash(inv_id, -total_price as i128),
        PotentialOrder::PotentialSell(size, ticker) => AccountUpdate::MinusPos(inv_id, ticker, size),
    }
}

/// The accounts after reserving what an order needs.
pub open spec fn accounts_after_reservation(accounts: Map<InvId, AccountView>, inv_id: InvId, p: PotentialOrder) -> Map<InvId, AccountView> {
    if accounts.contains_key(inv_id) {
        accounts_after(accounts, reservation(inv_id, p))
    } else {
        accounts
    }
}

/// **Law: an investor logs in at most once.** After a successful login,
/// every later login of the same investor fails, whatever the password.
pub proof fn law_second_login_fails(v: AccountsView, inv_id: InvId, password: Seq<char>, again: Seq<char>)
    requires
        login_succeeds(v, inv_id, password),
    ensures
        !login_succeeds(AccountsView { logged_in: v.logged_in.insert(inv_id), ..v }, inv_id, again),
{
}

impl AccountManager {
    /// No account yet.
    pub fn new() -> (m: Self)
        ensures
            m@.accounts == Map::<InvId, AccountView>::empty(),
            m@.logged_in == Set::<InvId>::empty(),
    {
        let m = AccountManager { accounts: HashMap::new(), login_accs: HashSet::new() };
        assert(m@.accounts =~= Map::<InvId, AccountView>::empty());
        m
    }

    /// Adds an account, replacing any earlier one with the id.
    pub fn add_account(&mut self, inv_id: InvId, account: Account)
        ensures
            final(self)@.accounts == old(self)@.accounts.insert(inv_id, account@),
            final(self)@.logged_in == old(self)@.logged_in,
    {
        self.accounts.insert(inv_id, account);
        assert(self@.accounts =~= old(self)@.accounts.insert(inv_id, account@));
    }

    /// Whether the investor has an account that covers the order.
    pub fn valid_potential_order(&self, inv_id: &InvId, p_order: &PotentialOrder) -> (r: bool)
        ensures
            r == accounts_cover(self@.accounts, *inv_id, *p_order),
    {
        match self.accounts.get(inv_id) {
            Some(acc) => acc.valid_potential_order(p_order),
            None => false,
        }
    }

    /// Applies an update to the account it names, if there is one.
    pub fn update(&mut self, update: AccountUpdate)
        ensures
            final(self)@.accounts == accounts_after(old(self)@.accounts, update),
            final(self)@.logged_in == old(self)@.logged_in,
    {
        let inv_id = get_inv_id(&update);
        match self.accounts.remove(&inv_id) {
            Some(acc) => {
                let mut acc = acc;
                acc.update(update);
                self.accounts.insert(inv_id, acc);
                assert(self@.accounts =~= accounts_after(old(self)@.accounts, update));
            },
            None => {
                assert(self@.accounts =~= old(self)@.accounts);
            },
        }
    }

    /// Logs an investor in when the account exists, the password matches and
    /// the investor is not logged in yet; a second login fails.
    pub fn try_login(&mut self, inv_id: InvId, password: &Password) -> (ok: bool)
        ensures
            ok == login_succeeds(old(self)@, inv_id, password@),
            final(self)@.accounts == old(self)@.accounts,
            final(self)@.logged_in == if ok {
                old(self)@.logged_in.insert(inv_id)
            } else {
                old(self)@.logged_in
            },
    {
        if let Some(account) = self.accounts.get(&inv_id) {
            if account.password == *password && !self.login_accs.contains(&inv_id) {
                self.login_accs.insert(inv_id);
                return true;
            }
        }
        false
    }

    /// Reserves what a new order needs from its owner's account: the cash of
    /// a buy, the shares of a sell.
    pub fn update_by_potential_order(&mut self, inv_id: InvId, p_order: PotentialOrder)
        requires
            p_order matches PotentialOrder::PotentialBuy(t) ==> t > i128::MIN,
        ensures
            final(self)@.accounts == accounts_after_reservation(old(self)@.accounts, inv_id, p_order),
            final(self)@.logged_in == old(self)@.logged_in,
    {
        if self.accounts.contains_key(&inv_id) {
            match p_order {
                PotentialOrder::PotentialBuy(total_price) => {
                    self.update(AccountUpdate::UpdCash(inv_id, -total_price));
                },
                PotentialOrder::PotentialSell(size, ticker) => {
                    self.update(AccountUpdate::MinusPos(inv_id, ticker, size));
                },
            }
        }
    }
}

} // verus!

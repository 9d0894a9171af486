use vstd::prelude::*;
use super::common::{Cash, InvId, Size, Ticker};

verus! {

/// What a new order would take from its owner's account: cash for a buy,
/// shares of one stock for a sell.
#[derive(Debug)]
pub enum PotentialOrder {
    PotentialBuy(Cash),
    PotentialSell(Size, Ticker),
}

/// A change to one account: add cash (negative to take), add shares, or take
/// shares.
#[derive(Debug)]
pub enum AccountUpdate {
    UpdCash(InvId, Cash),
    AddPos(InvId, Ticker, Size),
    MinusPos(InvId, Ticker, Size),
}

} // verus!

//! What the portal knows of every order: the properties fixed when it was
//! accepted, and the shares it has resting in its book.

use vstd::prelude::*;
use crate::types::common::{Direction, InvId, OrderId, Price, Size, Ticker};
use crate::types::event::Event;
use crate::types::portal::PortalNewOrderRequest;
use std::collections::HashMap;

verus! {

broadcast use vstd::std_specs::hash::group_hash_axioms;

/// The properties of an order fixed when it was accepted.
#[derive(Debug)]
pub struct OrderRecord {
    pub inv_id: InvId,
    pub ticker: Ticker,
    pub direction: Direction,
    pub limit_price: Price,
    pub initial_size: Size,
}

/// Records of all accepted orders and resting sizes of the orders in books.
pub struct OrderInfo {
    pub bind: HashMap<OrderId, OrderRecord>,
    pub resting: HashMap<OrderId, Size>,
}

/// The resting size of an order as `get_resting` reports it, and the resting
/// map after the call: an entry of size zero is dropped and reported absent.
pub open spec fn resting_outcome(resting: Map<OrderId, Size>, id: OrderId) -> (Option<Size>, Map<OrderId, Size>) {
    if resting.contains_key(id) {
        if resting[id] == 0 {
            (None, resting.remove(id))
        } else {
            (Some(resting[id]), resting)
        }
    } else {
        (None, resting)
    }
}

/// The resting map after an event: an added order rests with its size, an
/// execution takes the executed shares off a resting order (down to zero at
/// least), and a removed order no longer rests.
pub open spec fn resting_after_event(resting: Map<OrderId, Size>, event: Event) -> Map<OrderId, Size> {
    match event {
        Event::OrderAdded(a) => resting.insert(a.order_id, a.resting_size),
        Event::OrderExecuted(e) => {
            let r = resting_outcome(resting, e.order_id);
            match r.0 {
                Some(size) => r.1.insert(
                    e.order_id,
                    if size >= e.execution_size { (size - e.execution_size) as Size } else { 0 },
                ),
                None => r.1,
            }
        },
        Event::OrderRemoved(rm) => resting.remove(rm.order_id),
    }
}

/// **Law: an order that has traded all its shares, or was removed, can no
/// longer be cancelled.** After an execution of at least its resting shares,
/// or after its removal, an order no longer rests with shares left.
pub proof fn law_done_orders_not_resting(resting: Map<OrderId, Size>, event: Event)
    requires
        match event {
            Event::OrderExecuted(e) => resting.contains_key(e.order_id) ==> e.execution_size >= resting[e.order_id],
            Event::OrderRemoved(_) => true,
            Event::OrderAdded(_) => false,
        },
    ensures
        ({
            let id = match event {
                Event::OrderExecuted(e) => e.order_id,
                Event::OrderRemoved(r) => r.order_id,
                Event::OrderAdded(a) => a.order_id,
            };
            resting_outcome(resting_after_event(resting, event), id).0 is None
        }),
{
}

impl OrderInfo {
    /// No order yet.
    pub fn new() -> (info: Self)
        ensures
            info.bind@ == Map::<OrderId, OrderRecord>::empty(),
            info.resting@ == Map::<OrderId, Size>::empty(),
    {
        OrderInfo { bind: HashMap::new(), resting: HashMap::new() }
    }

    /// The resting size of an order, if it rests with shares left; an entry
    /// with no shares left is dropped.
    pub fn get_resting(&mut self, order_id: &OrderId) -> (size: Option<Size>)
        ensures
            (size, final(self).resting@) == resting_outcome(old(self).resting@, *order_id),
            final(self).bind@ == old(self).bind@,
    {
        match self.resting.get(order_id) {
            Some(size) => {
                let size: Size = *size;
                if size == 0 {
                    self.resting.remove(order_id);
                    None
                } else {
                    Some(size)
                }
            },
            None => None,
        }
    }

    /// An order can be cancelled by `inv_id` when it rests with shares left
    /// and belongs to `inv_id`.
    pub fn valid_cancel_order(&mut self, order_id: &OrderId, inv_id: &InvId) -> (valid: bool)
        ensures
            final(self).resting@ == resting_outcome(old(self).resting@, *order_id).1,
            final(self).bind@ == old(self).bind@,
            valid == (resting_outcome(old(self).resting@, *order_id).0 is Some
                && old(self).bind@.contains_key(*order_id)
                && old(self).bind@[*order_id].inv_id == *inv_id),
    {
        if let Some(_) = self.get_resting(order_id) {
            match self.bind.get(order_id) {
                Some(p) => p.inv_id == *inv_id,
                None => false,
            }
        } else {
            false
        }
    }

    /// Binds an order id to the order's fixed properties.
    pub fn bind_order(&mut self, order_id: OrderId, order_rec: OrderRecord)
        ensures
            final(self).bind@ == old(self).bind@.insert(order_id, order_rec),
            final(self).resting@ == old(self).resting@,
    {
        self.bind.insert(order_id, order_rec);
    }

    /// Updates resting sizes by a market-data event.
    pub fn update_by_event(&mut self, event: Event)
        ensures
            final(self).resting@ == resting_after_event(old(self).resting@, event),
            final(self).bind@ == old(self).bind@,
    {
        match event {
            Event::OrderAdded(order_added) => {
                self.resting.insert(order_added.order_id, order_added.resting_size);
            },
            Event::OrderExecuted(order_executed) => {
                if let Some(size) = self.get_resting(&order_executed.order_id) {
                    let left: Size = if size >= order_executed.execution_size {
                        size - order_executed.execution_size
                    } else {
                        0
                    };
                    self.resting.insert(order_executed.order_id, left);
                }
            },
            Event::OrderRemoved(order_removed) => {
                self.resting.remove(&order_removed.order_id);
            },
        }
    }

    /// The fixed properties of an order, if it was accepted.
    pub fn get_order_record(&self, order_id: &OrderId) -> (rec: Option<&OrderRecord>)
        ensures
            match rec {
                Some(r) => self.bind@.contains_key(*order_id) && self.bind@[*order_id] == *r,
                None => !self.bind@.contains_key(*order_id),
            },
    {
        self.bind.get(order_id)
    }

    /// Records a newly accepted order of `inv_id`.
    pub fn add_new_order(&mut self, order_id: &OrderId, inv_id: &InvId, req: &PortalNewOrderRequest)
        ensures
            final(self).bind@ == old(self).bind@.insert(
                *order_id,
                OrderRecord {
                    inv_id: *inv_id,
                    ticker: req.ticker,
                    direction: req.direction,
                    limit_price: req.price,
                    initial_size: req.size,
                },
            ),
            final(self).resting@ == old(self).resting@,
    {
        self.bind_order(
            *order_id,
            OrderRecord {
                inv_id: *inv_id,
                ticker: req.ticker.clone(),
                direction: req.direction,
                limit_price: req.price,
                initial_size: req.size,
            },
        );
    }
}

} // verus!

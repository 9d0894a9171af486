use vstd::prelude::*;
use super::common::{
    Direction, InvId, LimitOrMarket, OrderId, Price, SeqNum, Size, SubId, TimeInForce, Timestamp,
};
use super::event::Event;
use super::orderbook::{OrderDeadResponse, OrderFillResponse};

verus! {

/// A request that the portal processes.
#[derive(Debug)]
pub enum PortalRequest {
    EventHistory(SubId),
    NewOrder(InvId, PortalNewOrderRequest),
    CancelOrder(InvId, OrderId),
}

/// A new order as an investor sends it.
#[derive(Debug)]
pub struct PortalNewOrderRequest {
    pub ticker: String,
    pub direction: Direction,
    pub size: Size,
    pub price: Price,
    pub limit_or_market: LimitOrMarket,
    pub time_in_force: TimeInForce,
    pub timestamp: Timestamp,
}

/// Work that processing a request leaves for the network layer.
pub enum PortalTask {
    EventHistory(SubId, Vec<Event>),
    IncrementalEvent(Event),
    OrderAck(InvId, SeqNum, OrderId),
    OrderReject(InvId, SeqNum, String),
    CancelReject(InvId, SeqNum, String),
    OrderResponse(InvId, OrderResponse),
}

/// A response for the owner of an order.
#[derive(Debug, PartialEq, Clone, Copy)]
pub enum OrderResponse {
    OrderFill(OrderFillResponse),
    OrderDead(OrderDeadResponse),
}

/// The abstract value of a task.
pub enum TaskView {
    EventHistory(SubId, Seq<Event>),
    IncrementalEvent(Event),
    OrderAck(InvId, SeqNum, OrderId),
    OrderReject(InvId, SeqNum, Seq<char>),
    CancelReject(InvId, SeqNum, Seq<char>),
    OrderResponse(InvId, OrderResponse),
}

impl View for PortalTask {
    type V = TaskView;

    open spec fn view(&self) -> TaskView {
        match self {
            PortalTask::EventHistory(sub_id, events) => TaskView::EventHistory(*sub_id, events@),
            PortalTask::IncrementalEvent(event) => TaskView::IncrementalEvent(*event),
            PortalTask::OrderAck(inv_id, seqnum, order_id) => TaskView::OrderAck(*inv_id, *seqnum, *order_id),
            PortalTask::OrderReject(inv_id, seqnum, reason) => TaskView::OrderReject(*inv_id, *seqnum, reason@),
            PortalTask::CancelReject(inv_id, seqnum, reason) => TaskView::CancelReject(*inv_id, *seqnum, reason@),
            PortalTask::OrderResponse(inv_id, response) => TaskView::OrderResponse(*inv_id, *response),
        }
    }
}

/// The abstract values of a list of tasks.
pub open spec fn tasks_view(tasks: Seq<PortalTask>) -> Seq<TaskView> {
    tasks.map_values(|t: PortalTask| t@)
}

} // verus!

//! The messages exchanged with investors and subscribers, and how the tasks
//! that the portal returns are routed to them.

pub mod stock_exchange;

use vstd::prelude::*;
use self::stock_exchange::{RpcOrderResponse, RpcSubscribeResponse};
use crate::types::common::{InvId, SubId};
use crate::types::event::Event;
use crate::types::portal::PortalTask;
use crate::utils::{
    event_message, order_response_message, wrap_cancel_reject, wrap_event, wrap_order_ack, wrap_order_reject,
    wrap_order_response,
};
use crate::server::stock_exchange::rpc_order_response::{CancelRej, LoginAck, LoginRej, OrderAck, OrderRej, Response};
use crate::server::stock_exchange::{rpc_order_request, RpcOrderRequest};
use crate::portal::Portal;
use crate::portal::account_manager::{AccountsView, login_succeeds};
use crate::portal::spec::PortalState;

verus! {

/// Where a message goes: to one investor's session, to one subscriber, or to
/// every subscriber.
#[derive(Debug, PartialEq)]
pub enum Dispatch {
    ToInvestor(InvId, RpcOrderResponse),
    ToSubscriber(SubId, RpcSubscribeResponse),
    ToAllSubscribers(RpcSubscribeResponse),
}

/// The messages that carry a task: each event of a history to its
/// subscriber, a new event to every subscriber, and acknowledgements,
/// rejections and order responses to their investor.
pub open spec fn task_dispatches(task: PortalTask) -> Seq<Dispatch> {
    match task {
        PortalTask::EventHistory(sub_id, events) => events@.map_values(
            |e: Event| Dispatch::ToSubscriber(sub_id, event_message(e)),
        ),
        PortalTask::IncrementalEvent(event) => seq![Dispatch::ToAllSubscribers(event_message(event))],
        PortalTask::OrderAck(inv_id, seqnum, order_id) => seq![
            Dispatch::ToInvestor(inv_id, RpcOrderResponse { response: Some(Response::Ack(OrderAck { seqnum, order_id })) }),
        ],
        PortalTask::OrderReject(inv_id, seqnum, reason) => seq![
            Dispatch::ToInvestor(inv_id, RpcOrderResponse { response: Some(Response::Rej(OrderRej { seqnum, reason })) }),
        ],
        PortalTask::CancelReject(inv_id, seqnum, reason) => seq![
            Dispatch::ToInvestor(
                inv_id,
                RpcOrderResponse { response: Some(Response::CancelRej(CancelRej { seqnum, reason })) },
            ),
        ],
        PortalTask::OrderResponse(inv_id, r) => seq![Dispatch::ToInvestor(inv_id, order_response_message(r))],
    }
}

/// Turns a task into the messages that carry it.
pub fn process_task(task: PortalTask) -> (dispatches: Vec<Dispatch>)
    ensures
        dispatches@ == task_dispatches(task),
{
    let ghost t = task;
    let mut dispatches: Vec<Dispatch> = Vec::new();
    match task {
        PortalTask::EventHistory(sub_id, events) => {
            let mut events = events;
            let ghost all = events@;
            let ghost n = all.len();
            while events.len() > 0
                invariant
                    n == all.len(),
                    events@.len() <= n,
                    events@ == all.subrange(n - events@.len(), n as int),
                    dispatches@ == all.subrange(0, n - events@.len()).map_values(
                        |e: Event| Dispatch::ToSubscriber(sub_id, event_message(e)),
                    ),
                decreases events@.len(),
            {
                let ghost done = n - events@.len();
                let event = events.remove(0);
                dispatches.push(Dispatch::ToSubscriber(sub_id, wrap_event(event)));
                assert(events@ =~= all.subrange(done + 1, n as int));
                assert(dispatches@ =~= all.subrange(0, done + 1).map_values(
                    |e: Event| Dispatch::ToSubscriber(sub_id, event_message(e)),
                ));
            }
            assert(all.subrange(0, n as int) =~= all);
        },
        PortalTask::IncrementalEvent(event) => {
            dispatches.push(Dispatch::ToAllSubscribers(wrap_event(event)));
        },
        PortalTask::OrderAck(inv_id, seqnum, order_id) => {
            dispatches.push(Dispatch::ToInvestor(inv_id, wrap_order_ack(seqnum, order_id)));
        },
        PortalTask::OrderReject(inv_id, seqnum, reason) => {
            dispatches.push(Dispatch::ToInvestor(inv_id, wrap_order_reject(seqnum, reason)));
        },
        PortalTask::CancelReject(inv_id, seqnum, reason) => {
            dispatches.push(Dispatch::ToInvestor(inv_id, wrap_cancel_reject(seqnum, reason)));
        },
        PortalTask::OrderResponse(inv_id, r) => {
            dispatches.push(Dispatch::ToInvestor(inv_id, wrap_order_response(r)));
        },
    }
    assert(dispatches@ =~= task_dispatches(t));
    dispatches
}

pub open spec fn reason_login_failed() -> Seq<char> {
    "login failed"@
}

pub open spec fn reason_invalid_first_request() -> Seq<char> {
    "invalid first request"@
}

/// Opens an investor's session with its first request, which must be a
/// login: a successful login returns the investor's id and a login
/// acknowledgement; a failed login, or a first request that is not a login,
/// returns a rejection.
pub fn login_session(portal: &mut Portal, first: Option<RpcOrderRequest>) -> (r: (Option<InvId>, RpcOrderResponse))
    requires
        old(portal).wf(),
    ensures
        final(portal).wf(),
        match first {
            Some(RpcOrderRequest { request: Some(rpc_order_request::Request::Login(login)) }) => {
                let ok = login_succeeds(old(portal)@.accounts, login.investor_id, login.password@);
                &&& final(portal)@ == (PortalState {
                    accounts: AccountsView {
                        logged_in: if ok {
                            old(portal)@.accounts.logged_in.insert(login.investor_id)
                        } else {
                            old(portal)@.accounts.logged_in
                        },
                        ..old(portal)@.accounts
                    },
                    ..old(portal)@
                })
                &&& if ok {
                    r == (Some(login.investor_id), RpcOrderResponse {
                        response: Some(Response::LoginAck(LoginAck { seqnum: login.seqnum })),
                    })
                } else {
                    &&& r.0 is None
                    &&& r.1.response matches Some(Response::LoginRej(rej))
                    &&& rej.seqnum == login.seqnum
                    &&& rej.reason@ == reason_login_failed()
                }
            },
            _ => {
                &&& final(portal)@ == old(portal)@
                &&& r.0 is None
                &&& r.1.response matches Some(Response::LoginRej(rej))
                &&& rej.seqnum == 0
                &&& rej.reason@ == reason_invalid_first_request()
            },
        },
{
    match first {
        Some(RpcOrderRequest { request: Some(rpc_order_request::Request::Login(login)) }) => {
            let seqnum = login.seqnum;
            if portal.try_login(login.investor_id, &login.password) {
                (Some(login.investor_id), RpcOrderResponse { response: Some(Response::LoginAck(LoginAck { seqnum })) })
            } else {
                (
                    None,
                    RpcOrderResponse {
                        response: Some(Response::LoginRej(LoginRej { seqnum, reason: "login failed".to_owned() })),
                    },
                )
            }
        },
        _ => (
            None,
            RpcOrderResponse {
                response: Some(Response::LoginRej(LoginRej { seqnum: 0, reason: "invalid first request".to_owned() })),
            },
        ),
    }
}

} // verus!

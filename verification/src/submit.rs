//! How a gateway answers a client that submits an order.
use crate::order_id::{counted, next_order_id, order_id};
use crate::types::{Order, Side};
use std::sync::atomic::AtomicU64;
use vstd::prelude::*;

verus! {

/// An order as a client submits it.
#[derive(Debug, Clone, Copy, PartialEq, Eq, Structural)]
pub struct SubmitRequest {
    pub side: Side,
    pub price: u64,
    pub qty: u64,
}

/// What a client is answered.
#[derive(Debug, Clone, Copy, PartialEq, Eq, Structural)]
pub enum SubmitReply {
    /// The order is on its way to the core.
    Accepted { id: u64 },
    /// The order has no price or no quantity.
    Invalid,
    /// The order could not be written as a message.
    Internal,
    /// The core cannot be reached.
    Unavailable,
}

/// What came of handing the order to the core.
#[derive(Debug, Clone, Copy, PartialEq, Eq, Structural)]
pub enum Handover {
    /// It could not be written as a message.
    NotEncoded,
    /// The connection did not take it.
    NotSent,
    /// It was sent.
    Sent,
}

/// Whether an order with this price and quantity is taken.
pub open spec fn is_valid(req: SubmitRequest) -> bool {
    req.price != 0 && req.qty != 0
}

/// The order that `req` asks for, under `id`.
pub open spec fn order_of(req: SubmitRequest, id: u64) -> Order {
    Order { id, side: req.side, price: req.price, qty: req.qty }
}

/// Whether `reply` is the answer once the order `id` has been handed over.
pub open spec fn answers(id: u64, handover: Handover, reply: SubmitReply) -> bool {
    match handover {
        Handover::NotEncoded => reply == SubmitReply::Internal,
        Handover::NotSent => reply == SubmitReply::Unavailable,
        Handover::Sent => reply == (SubmitReply::Accepted { id }),
    }
}

/// Whether `status` is the HTTP status of `reply`.
pub open spec fn has_status(reply: SubmitReply, status: u16) -> bool {
    match reply {
        SubmitReply::Accepted { .. } => status == 200,
        SubmitReply::Invalid => status == 400,
        SubmitReply::Internal => status == 500,
        SubmitReply::Unavailable => status == 503,
    }
}

/// Whether `text` is the error that `reply` names.
pub open spec fn names_error(reply: SubmitReply, text: Option<Seq<char>>) -> bool {
    match reply {
        SubmitReply::Invalid => text == Some("price and qty must be non-zero"@),
        SubmitReply::Unavailable => text == Some("core unavailable"@),
        SubmitReply::Accepted { .. } => text is None,
        SubmitReply::Internal => text is None,
    }
}

impl SubmitRequest {
    /// The order that this asks for, under `id`, where it is valid.
    pub fn order(&self, id: u64) -> (order: Result<Order, SubmitReply>)
        ensures
            order == if is_valid(*self) {
                Ok::<Order, SubmitReply>(order_of(*self, id))
            } else {
                Err(SubmitReply::Invalid)
            },
            self.price != 0 && self.qty != 0 ==> {
                &&& order matches Ok(order)
                &&& order.id == id
                &&& order.side == self.side
                &&& order.price == self.price
                &&& order.qty == self.qty
            },
            self.price == 0 || self.qty == 0 ==> order is Err,
    {
        if self.price == 0 || self.qty == 0 {
            Err(SubmitReply::Invalid)
        } else {
            Ok(Order { id, side: self.side, price: self.price, qty: self.qty })
        }
    }
}

/// The order to send to the core for `req`, or the answer where there is none.
/// An id is taken only for a valid order.
pub fn accept_order(req: &SubmitRequest, gateway_id: u16, counter: &AtomicU64) -> (order: Result<
    Order,
    SubmitReply,
>)
    ensures
        !is_valid(*req) ==> order == Err::<Order, SubmitReply>(SubmitReply::Invalid),
        is_valid(*req) ==> order is Ok && exists|local: u64|
            order->Ok_0.id == #[trigger] order_id(gateway_id, local) && order->Ok_0 == order_of(
                *req,
                order->Ok_0.id,
            ),
        req.price != 0 && req.qty != 0 ==> {
            &&& order matches Ok(order)
            &&& order.side == req.side
            &&& order.price == req.price
            &&& order.qty == req.qty
            &&& exists|local: u64|
                counted(counter, local) && order.id == #[trigger] order_id(gateway_id, local)
        },
        req.price == 0 || req.qty == 0 ==> order is Err,
{
    if req.price == 0 || req.qty == 0 {
        return Err(SubmitReply::Invalid);
    }
    let id = next_order_id(gateway_id, counter);
    req.order(id)
}

impl SubmitReply {
    /// The answer once the order `id` has been handed over.
    pub fn after(id: u64, handover: Handover) -> (reply: SubmitReply)
        ensures
            reply == match handover {
                Handover::NotEncoded => SubmitReply::Internal,
                Handover::NotSent => SubmitReply::Unavailable,
                Handover::Sent => SubmitReply::Accepted { id },
            },
            answers(id, handover, reply),
    {
        match handover {
            Handover::NotEncoded => SubmitReply::Internal,
            Handover::NotSent => SubmitReply::Unavailable,
            Handover::Sent => SubmitReply::Accepted { id },
        }
    }

    /// The HTTP status of the answer.
    pub fn status(&self) -> (status: u16)
        ensures
            status == match self {
                SubmitReply::Accepted { .. } => 200u16,
                SubmitReply::Invalid => 400u16,
                SubmitReply::Internal => 500u16,
                SubmitReply::Unavailable => 503u16,
            },
            has_status(*self, status),
    {
        match self {
            SubmitReply::Accepted { .. } => 200,
            SubmitReply::Invalid => 400,
            SubmitReply::Internal => 500,
            SubmitReply::Unavailable => 503,
        }
    }

    /// The error that the answer names, if it names one.
    pub fn error(&self) -> (text: Option<String>)
        ensures
            match self {
                SubmitReply::Invalid => text matches Some(text) && text@
                    == "price and qty must be non-zero"@,
                SubmitReply::Unavailable => text matches Some(text) && text@ == "core unavailable"@,
                SubmitReply::Accepted { .. } | SubmitReply::Internal => text is None,
            },
            names_error(
                *self,
                match text {
                    Some(text) => Some(text@),
                    None => None,
                },
            ),
    {
        match self {
            SubmitReply::Invalid => Some("price and qty must be non-zero".to_owned()),
            SubmitReply::Unavailable => Some("core unavailable".to_owned()),
            SubmitReply::Accepted { .. } => None,
            SubmitReply::Internal => None,
        }
    }
}

/// A request is taken exactly when it has a price and a quantity, and what is
/// sent to the core for it is that request and nothing else: its side, its
/// price and its whole quantity, under the id that it was given.
pub proof fn order_is_what_was_asked_for(req: SubmitRequest, id: u64)
    ensures
        is_valid(req) <==> req.price > 0 && req.qty > 0,
        order_of(req, id).id == id,
        order_of(req, id).side == req.side,
        order_of(req, id).price == req.price,
        order_of(req, id).qty == req.qty,
{
}

/// Requests that differ make orders that differ, and so do ids.
pub proof fn no_two_requests_make_one_order(
    a: SubmitRequest,
    b: SubmitRequest,
    id_a: u64,
    id_b: u64,
)
    ensures
        order_of(a, id_a) == order_of(b, id_b) <==> a == b && id_a == id_b,
{
}

/// A client is told of success, with the id of its order, exactly when the order
/// was sent; otherwise it is told of a failure of the server, and the core is
/// named as the reason only where it did not take the order.
pub proof fn client_learns_what_happened(
    id: u64,
    handover: Handover,
    reply: SubmitReply,
    status: u16,
    text: Option<Seq<char>>,
)
    requires
        answers(id, handover, reply),
        has_status(reply, status),
        names_error(reply, text),
    ensures
        handover == Handover::Sent <==> 200 <= status < 300,
        handover == Handover::Sent <==> reply == (SubmitReply::Accepted { id }),
        handover != Handover::Sent <==> 500 <= status < 600,
        handover == Handover::NotSent <==> status == 503,
        handover == Handover::NotSent <==> text == Some("core unavailable"@),
        handover != Handover::NotSent <==> text is None,
{
}

/// A client whose order is refused is told that the fault is its own, and why.
pub proof fn refusal_is_explained(reply: SubmitReply, status: u16, text: Option<Seq<char>>)
    requires
        has_status(reply, status),
        names_error(reply, text),
    ensures
        reply == SubmitReply::Invalid <==> 400 <= status < 500,
        reply == SubmitReply::Invalid ==> status == 400 && text == Some(
            "price and qty must be non-zero"@,
        ),
        reply is Accepted <==> status == 200,
        reply == SubmitReply::Internal <==> status == 500,
        reply == SubmitReply::Unavailable <==> status == 503,
{
}

} // verus!

use vstd::prelude::*;

verus! {

/// An envelope: who sent it, to whom, and its body.
#[derive(Debug, Clone, PartialEq, Eq)]
pub struct Message<P> {
    pub src: String,
    pub dest: String,
    pub body: Body<P>,
}

/// A payload with its correlation fields: `msg_id` is set when the sender
/// expects a reply, `in_reply_to` on a reply, echoing the request's `msg_id`.
#[derive(Debug, Clone, PartialEq, Eq)]
pub struct Body<P> {
    pub payload: P,
    pub in_reply_to: Option<usize>,
    pub msg_id: Option<usize>,
}

/// The handshake request that gives a node its identity and the cluster's members.
#[derive(Debug, Clone, PartialEq, Eq)]
pub struct Init {
    pub node_id: String,
    pub node_ids: Vec<String>,
}

/// The handshake reply.
#[allow(non_camel_case_types)]
#[derive(Debug, Clone, PartialEq, Eq)]
pub struct init_ok {}

/// The payload kinds of the broadcast protocol.
#[derive(Debug, Clone, PartialEq, Eq)]
pub enum Payload {
    Broadcast { message: usize },
    BroadcastOk,
    Read,
    ReadOk { messages: Vec<usize> },
    Topology { topology: Vec<(String, Vec<String>)> },
    TopologyOk,
    Propagate { messages: Vec<usize>, start_idx: usize },
    PropagateOk { end_idx: usize },
}

/// `reply` answers `request`: it goes back to the sender, from the node the
/// request was sent to, and echoes the request's `msg_id`.
pub open spec fn answers<P, Q>(request: Message<P>, reply: Message<Q>) -> bool {
    &&& reply.src@ == request.dest@
    &&& reply.dest@ == request.src@
    &&& reply.body.in_reply_to == request.body.msg_id
    &&& reply.body.msg_id is None
}

/// Builds the reply to `request` that carries `payload`.
pub fn reply_to<P, Q>(request: Message<P>, payload: Q) -> (r: Message<Q>)
    ensures
        answers(request, r),
        r.body.payload == payload,
{
    Message {
        src: request.dest,
        dest: request.src,
        body: Body { payload, in_reply_to: request.body.msg_id, msg_id: None },
    }
}

} // verus!

use vstd::prelude::*;

use crate::message::{answers, reply_to, Message};
use crate::node::StepError;
use crate::value_log::{appended, ValueLog};

verus! {

/// The payload kinds of a node that serves broadcast alone, without peers:
/// it answers the handshake itself.
#[derive(Debug, Clone, PartialEq, Eq)]
pub enum SinglePayload {
    Broadcast { message: usize },
    BroadcastOk,
    Read,
    ReadOk { messages: Vec<usize> },
    Init { node_id: String, node_ids: Vec<String> },
    InitOk,
    Topology { topology: Vec<(String, Vec<String>)> },
    TopologyOk,
}

/// A node that keeps the broadcast values it is sent and gossips with nobody.
pub struct SingleBroadCaseNode {
    messages: ValueLog,
}

impl SingleBroadCaseNode {
    pub closed spec fn log(&self) -> Seq<usize> {
        self.messages@
    }

    pub closed spec fn wf(&self) -> bool {
        self.messages.wf()
    }

    /// A node with an empty log.
    pub fn new() -> (r: SingleBroadCaseNode)
        ensures
            r.wf(),
            r.log() == Seq::<usize>::empty(),
    {
        SingleBroadCaseNode { messages: ValueLog::new() }
    }

    /// A copy of the log.
    pub fn snapshot(&self) -> (r: Vec<usize>)
        ensures
            r@ == self.log(),
    {
        self.messages.snapshot()
    }

    /// Handles one message and returns the reply to send. Every request is
    /// answered; an acknowledgment where a request was expected is a protocol
    /// violation, and leaves the node as it was.
    pub fn broadcast(&mut self, input: Message<SinglePayload>) -> (r: Result<
        Message<SinglePayload>,
        StepError,
    >)
        requires
            old(self).wf(),
        ensures
            final(self).wf(),
            match input.body.payload {
                SinglePayload::Broadcast { message } => {
                    &&& r matches Ok(reply) && answers(input, reply) && reply.body.payload
                        == SinglePayload::BroadcastOk
                    &&& final(self).log() == appended(old(self).log(), message)
                },
                SinglePayload::Read => {
                    &&& r matches Ok(reply) && answers(input, reply) && (
                    reply.body.payload matches SinglePayload::ReadOk { messages } && messages@
                        == old(self).log())
                    &&& final(self).log() == old(self).log()
                },
                SinglePayload::Init { .. } => {
                    &&& r matches Ok(reply) && answers(input, reply) && reply.body.payload
                        == SinglePayload::InitOk
                    &&& final(self).log() == old(self).log()
                },
                SinglePayload::Topology { .. } => {
                    &&& r matches Ok(reply) && answers(input, reply) && reply.body.payload
                        == SinglePayload::TopologyOk
                    &&& final(self).log() == old(self).log()
                },
                _ => {
                    &&& r == Err::<Message<SinglePayload>, StepError>(StepError::ProtocolViolation)
                    &&& final(self).log() == old(self).log()
                },
            },
    {
        match &input.body.payload {
            SinglePayload::Broadcast { message } => {
                self.messages.append(*message);
                Ok(reply_to(input, SinglePayload::BroadcastOk))
            },
            SinglePayload::Read => {
                let messages = self.messages.snapshot();
                Ok(reply_to(input, SinglePayload::ReadOk { messages }))
            },
            SinglePayload::Init { .. } => Ok(reply_to(input, SinglePayload::InitOk)),
            SinglePayload::Topology { .. } => Ok(reply_to(input, SinglePayload::TopologyOk)),
            SinglePayload::BroadcastOk => Err(StepError::ProtocolViolation),
            SinglePayload::ReadOk { .. } => Err(StepError::ProtocolViolation),
            SinglePayload::InitOk => Err(StepError::ProtocolViolation),
            SinglePayload::TopologyOk => Err(StepError::ProtocolViolation),
        }
    }
}

} // verus!

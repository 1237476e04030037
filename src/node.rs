use vstd::prelude::*;

use crate::message::{answers, reply_to, Body, Init, Message, Payload, init_ok};
use crate::value_log::{appended, merged, ValueLog};

verus! {

broadcast use vstd::seq_lib::lemma_seq_contains_after_push;

/// The distinct members of `ids` other than `id`, in order of first appearance.
pub open spec fn peers_of(id: Seq<char>, ids: Seq<Seq<char>>) -> Seq<Seq<char>>
    decreases ids.len(),
{
    if ids.len() == 0 {
        Seq::empty()
    } else {
        let p = peers_of(id, ids.drop_last());
        if ids.last() == id || p.contains(ids.last()) {
            p
        } else {
            p.push(ids.last())
        }
    }
}

/// A cursor after an acknowledgment of `end` entries, with `len` entries in
/// the log: it only moves forward, and never past the log's end.
pub open spec fn advanced(cur: nat, end: nat, len: nat) -> nat {
    let e = if end <= len { end } else { len };
    if cur >= e { cur } else { e }
}

/// The cursors after peer `p` acknowledged `end` entries, with `len` entries in the log.
pub open spec fn acked(
    cursors: Seq<usize>,
    peers: Seq<Seq<char>>,
    p: Seq<char>,
    end: nat,
    len: nat,
) -> Seq<usize> {
    Seq::new(
        cursors.len(),
        |i: int|
            if peers[i] == p {
                advanced(cursors[i] as nat, end, len) as usize
            } else {
                cursors[i]
            },
    )
}

/// The positions among the first `n` cursors that lie behind a log of `len` entries.
pub open spec fn lagging(cursors: Seq<usize>, len: nat, n: int) -> Seq<int>
    decreases n,
{
    if n <= 0 {
        Seq::empty()
    } else {
        let t = lagging(cursors, len, n - 1);
        if cursors[n - 1] < len {
            t.push(n - 1)
        } else {
            t
        }
    }
}

pub proof fn lemma_lagging_prefix(cursors: Seq<usize>, len: nat, i: int, j: int)
    requires
        0 <= i <= j,
    ensures
        lagging(cursors, len, i).len() <= lagging(cursors, len, j).len(),
        lagging(cursors, len, j).take(lagging(cursors, len, i).len() as int)
            == lagging(cursors, len, i),
    decreases j - i,
{
    if i < j {
        lemma_lagging_prefix(cursors, len, i, j - 1);
        let a = lagging(cursors, len, i);
        let b = lagging(cursors, len, j - 1);
        assert(b.push(j - 1).take(a.len() as int) =~= b.take(a.len() as int));
    } else {
        assert(lagging(cursors, len, j).take(lagging(cursors, len, i).len() as int)
            =~= lagging(cursors, len, i));
    }
}

/// The reason a message cannot be handled.
#[derive(Debug, Clone, Copy, PartialEq, Eq)]
pub enum StepError {
    /// An acknowledgment-only payload arrived where a request was expected.
    ProtocolViolation,
    /// A `Propagate` whose end offset does not fit in a machine word.
    OffsetOverflow,
}

/// One cluster member: its identity and peers, the de-duplicated value log,
/// one replication cursor per peer once the topology is known, and the
/// counter that numbers outbound requests.
pub struct Node {
    node_id: String,
    peers: Vec<String>,
    log: ValueLog,
    tracking: bool,
    cursors: Vec<usize>,
    next_msg_id: usize,
}

impl Node {
    pub closed spec fn id(&self) -> Seq<char> {
        self.node_id@
    }

    pub closed spec fn peers(&self) -> Seq<Seq<char>> {
        self.peers@.map_values(|s: String| s@)
    }

    pub closed spec fn log(&self) -> Seq<usize> {
        self.log@
    }

    /// Whether the cursors have been set up (by a `Topology` message).
    pub closed spec fn tracking(&self) -> bool {
        self.tracking
    }

    /// The cursors, one per peer in the order of `peers()`; empty until tracking.
    pub closed spec fn cursors(&self) -> Seq<usize> {
        self.cursors@
    }

    pub closed spec fn next_msg_id(&self) -> nat {
        self.next_msg_id as nat
    }

    pub closed spec fn wf(&self) -> bool {
        &&& self.log.wf()
        &&& self.peers().no_duplicates()
        &&& !self.peers().contains(self.id())
        &&& if self.tracking {
            self.cursors@.len() == self.peers@.len()
        } else {
            self.cursors@.len() == 0
        }
        &&& forall|i: int| 0 <= i < self.cursors@.len() ==> self.cursors@[i] <= self.log@.len()
    }

    /// The log holds no value twice, and no cursor lies past its end.
    pub proof fn lemma_wf(&self)
        requires
            self.wf(),
        ensures
            self.log().no_duplicates(),
            self.tracking() ==> self.cursors().len() == self.peers().len(),
            !self.tracking() ==> self.cursors().len() == 0,
            forall|i: int| 0 <= i < self.cursors().len() ==> self.cursors()[i] <= self.log().len(),
            self.peers().no_duplicates(),
            !self.peers().contains(self.id()),
            self.next_msg_id() <= usize::MAX,
    {
    }

    /// A node named `node_id` in a cluster of `node_ids`, with an empty log.
    pub fn new(node_id: String, node_ids: Vec<String>) -> (r: Node)
        ensures
            r.wf(),
            r.id() == node_id@,
            r.peers() == peers_of(node_id@, node_ids@.map_values(|s: String| s@)),
            r.log() == Seq::<usize>::empty(),
            !r.tracking(),
            r.next_msg_id() == 0,
    {
        let ghost ids = node_ids@.map_values(|s: String| s@);
        let mut peers: Vec<String> = Vec::new();
        let mut i: usize = 0;
        while i < node_ids.len()
            invariant
                0 <= i <= node_ids@.len(),
                ids == node_ids@.map_values(|s: String| s@),
                peers@.map_values(|s: String| s@) == peers_of(node_id@, ids.take(i as int)),
                peers_of(node_id@, ids.take(i as int)).no_duplicates(),
                !peers_of(node_id@, ids.take(i as int)).contains(node_id@),
            decreases node_ids@.len() - i,
        {
            let ghost before = peers_of(node_id@, ids.take(i as int));
            proof {
                assert(ids.take(i + 1).drop_last() =~= ids.take(i as int));
            }
            let candidate = &node_ids[i];
            let mut seen = *candidate == node_id;
            let mut j: usize = 0;
            while j < peers.len()
                invariant
                    0 <= j <= peers@.len(),
                    peers@.map_values(|s: String| s@) == before,
                    seen == (candidate@ == node_id@ || before.take(j as int).contains(
                        candidate@,
                    )),
                decreases peers@.len() - j,
            {
                proof {
                    assert(before.take(j + 1) =~= before.take(j as int).push(before[j as int]));
                    assert(before[j as int] == peers@[j as int]@);
                }
                if peers[j] == *candidate {
                    seen = true;
                }
                j = j + 1;
            }
            proof {
                assert(before.take(j as int) =~= before);
            }
            if !seen {
                peers.push(candidate.clone());
                proof {
                    assert(peers@.map_values(|s: String| s@) =~= before.push(candidate@));
                }
            }
            i = i + 1;
        }
        proof {
            assert(ids.take(i as int) =~= ids);
        }
        Node {
            node_id,
            peers,
            log: ValueLog::new(),
            tracking: false,
            cursors: Vec::new(),
            next_msg_id: 0,
        }
    }

    /// The node that a handshake request sets up, and the reply to it.
    pub fn from_init(request: Message<Init>) -> (r: (Node, Message<init_ok>))
        ensures
            r.0.wf(),
            r.0.id() == request.body.payload.node_id@,
            r.0.peers() == peers_of(
                request.body.payload.node_id@,
                request.body.payload.node_ids@.map_values(|s: String| s@),
            ),
            r.0.log() == Seq::<usize>::empty(),
            !r.0.tracking(),
            r.0.next_msg_id() == 0,
            answers(request, r.1),
    {
        let reply = Message {
            src: request.dest,
            dest: request.src,
            body: Body { payload: init_ok {}, in_reply_to: request.body.msg_id, msg_id: None },
        };
        let node = Node::new(request.body.payload.node_id, request.body.payload.node_ids);
        (node, reply)
    }

    /// The node's identifier.
    pub fn node_id(&self) -> (r: &String)
        ensures
            r@ == self.id(),
    {
        &self.node_id
    }

    /// The other members of the cluster.
    pub fn peer_ids(&self) -> (r: &Vec<String>)
        ensures
            r@.map_values(|s: String| s@) == self.peers(),
    {
        &self.peers
    }

    /// A copy of the whole log, for a `Read` reply.
    pub fn snapshot(&self) -> (r: Vec<usize>)
        ensures
            r@ == self.log(),
    {
        self.log.snapshot()
    }

    /// The number of values in the log.
    pub fn log_len(&self) -> (r: usize)
        ensures
            r == self.log().len(),
    {
        self.log.len()
    }

    /// The position of `p` among the peers.
    fn peer_index(&self, p: &String) -> (r: Option<usize>)
        ensures
            r is None <==> !self.peers().contains(p@),
            r matches Some(i) ==> i < self.peers().len() && self.peers()[i as int] == p@,
    {
        let mut i: usize = 0;
        while i < self.peers.len()
            invariant
                0 <= i <= self.peers@.len(),
                forall|j: int| 0 <= j < i ==> self.peers()[j] != p@,
            decreases self.peers@.len() - i,
        {
            if self.peers[i] == *p {
                proof {
                    assert(self.peers()[i as int] == p@);
                }
                return Some(i);
            }
            i = i + 1;
        }
        proof {
            if self.peers().contains(p@) {
                let k = choose|k: int| 0 <= k < self.peers().len() && self.peers()[k] == p@;
                assert(self.peers()[k] == p@);
            }
        }
        None
    }

    /// How many log entries peer `p` is believed to hold; `None` for an
    /// unknown peer or before the cursors are set up.
    pub fn peer_cursor(&self, p: &String) -> (r: Option<usize>)
        requires
            self.wf(),
        ensures
            r is Some <==> self.tracking() && self.peers().contains(p@),
            r matches Some(c) ==> forall|i: int|
                0 <= i < self.peers().len() && self.peers()[i] == p@ ==> c == self.cursors()[i],
    {
        if !self.tracking {
            return None;
        }
        match self.peer_index(p) {
            Some(i) => Some(self.cursors[i]),
            None => None,
        }
    }

    /// Moves the cursor of `p` forward to `offset`, bounded by the log's
    /// length; a smaller offset, an unknown peer or untracked cursors leave
    /// everything as it is.
    pub fn advance_cursor(&mut self, p: &String, offset: usize)
        requires
            old(self).wf(),
        ensures
            final(self).wf(),
            final(self).id() == old(self).id(),
            final(self).peers() == old(self).peers(),
            final(self).log() == old(self).log(),
            final(self).tracking() == old(self).tracking(),
            final(self).next_msg_id() == old(self).next_msg_id(),
            final(self).cursors() == acked(
                old(self).cursors(),
                old(self).peers(),
                p@,
                offset as nat,
                old(self).log().len(),
            ),
    {
        if !self.tracking {
            proof {
                assert(self.cursors@ =~= acked(
                    old(self).cursors(),
                    old(self).peers(),
                    p@,
                    offset as nat,
                    old(self).log().len(),
                ));
            }
            return;
        }
        match self.peer_index(p) {
            Some(i) => {
                let len = self.log.len();
                let end = if offset <= len {
                    offset
                } else {
                    len
                };
                if self.cursors[i] < end {
                    self.cursors.set(i, end);
                }
                proof {
                    assert forall|k: int| 0 <= k < self.cursors@.len() && k != i implies
                        self.peers()[k] != p@ by {
                        assert(self.peers()[k] != self.peers()[i as int]);
                    }
                    assert(self.cursors@ =~= acked(
                        old(self).cursors(),
                        old(self).peers(),
                        p@,
                        offset as nat,
                        old(self).log().len(),
                    ));
                }
            },
            None => {
                proof {
                    assert(self.cursors@ =~= acked(
                        old(self).cursors(),
                        old(self).peers(),
                        p@,
                        offset as nat,
                        old(self).log().len(),
                    ));
                }
            },
        }
    }

    /// `m` is the replication request for the peer at position `i`, numbered
    /// `id`: it carries the log from that peer's cursor to the end.
    pub open spec fn propagation(&self, m: Message<Payload>, i: int, id: int) -> bool {
        &&& m.src@ == self.id()
        &&& m.dest@ == self.peers()[i]
        &&& m.body.msg_id == Some(id as usize)
        &&& m.body.in_reply_to is None
        &&& m.body.payload matches Payload::Propagate { messages, start_idx }
            && start_idx == self.cursors()[i] && messages@ == self.log().subrange(
            start_idx as int,
            self.log().len() as int,
        )
    }

    /// Handles one inbound message and returns the reply to send, if any.
    ///
    /// `Broadcast` adds its value to the log; `Read` returns the log;
    /// `Topology` sets every peer's cursor to zero the first time it comes;
    /// `Propagate` merges its values whatever offset it carries and reports
    /// the end offset; `PropagateOk` moves the sender's cursor forward. Any
    /// other acknowledgment is a protocol violation and changes nothing.
    pub fn step(&mut self, input: Message<Payload>) -> (r: Result<
        Option<Message<Payload>>,
        StepError,
    >)
        requires
            old(self).wf(),
        ensures
            final(self).wf(),
            final(self).id() == old(self).id(),
            final(self).peers() == old(self).peers(),
            final(self).next_msg_id() == old(self).next_msg_id(),
            r is Err ==> *final(self) == *old(self),
            old(self).tracking() ==> final(self).tracking() && final(self).cursors().len()
                == old(self).cursors().len(),
            forall|i: int|
                0 <= i < old(self).cursors().len() ==> old(self).cursors()[i]
                    <= #[trigger] final(self).cursors()[i],
            match input.body.payload {
                Payload::Broadcast { message } => {
                    &&& r matches Ok(Some(reply)) && answers(input, reply)
                        && reply.body.payload == Payload::BroadcastOk
                    &&& final(self).log() == appended(old(self).log(), message)
                    &&& final(self).tracking() == old(self).tracking()
                    &&& final(self).cursors() == old(self).cursors()
                },
                Payload::Read => {
                    &&& r matches Ok(Some(reply)) && answers(input, reply)
                        && (reply.body.payload matches Payload::ReadOk { messages }
                        && messages@ == old(self).log())
                    &&& *final(self) == *old(self)
                },
                Payload::Topology { .. } => {
                    &&& r matches Ok(Some(reply)) && answers(input, reply)
                        && reply.body.payload == Payload::TopologyOk
                    &&& final(self).log() == old(self).log()
                    &&& final(self).tracking()
                    &&& final(self).cursors() == if old(self).tracking() {
                        old(self).cursors()
                    } else {
                        Seq::new(old(self).peers().len(), |i: int| 0usize)
                    }
                },
                Payload::Propagate { messages, start_idx } => if start_idx + messages@.len()
                    > usize::MAX {
                    r == Err::<Option<Message<Payload>>, StepError>(StepError::OffsetOverflow)
                } else {
                    &&& r matches Ok(Some(reply)) && answers(input, reply)
                        && reply.body.payload == (Payload::PropagateOk {
                        end_idx: (start_idx + messages@.len()) as usize,
                    })
                    &&& final(self).log() == merged(old(self).log(), messages@)
                    &&& final(self).tracking() == old(self).tracking()
                    &&& final(self).cursors() == old(self).cursors()
                },
                Payload::PropagateOk { end_idx } => {
                    &&& r == Ok::<Option<Message<Payload>>, StepError>(None)
                    &&& final(self).log() == old(self).log()
                    &&& final(self).tracking() == old(self).tracking()
                    &&& final(self).cursors() == acked(
                        old(self).cursors(),
                        old(self).peers(),
                        input.src@,
                        end_idx as nat,
                        old(self).log().len(),
                    )
                },
                _ => r == Err::<Option<Message<Payload>>, StepError>(
                    StepError::ProtocolViolation,
                ),
            },
    {
        match &input.body.payload {
            Payload::Broadcast { message } => {
                self.log.append(*message);
                Ok(Some(reply_to(input, Payload::BroadcastOk)))
            },
            Payload::Read => {
                let messages = self.log.snapshot();
                Ok(Some(reply_to(input, Payload::ReadOk { messages })))
            },
            Payload::Topology { .. } => {
                if !self.tracking {
                    let mut cursors: Vec<usize> = Vec::new();
                    let mut i: usize = 0;
                    while i < self.peers.len()
                        invariant
                            0 <= i <= self.peers@.len(),
                            cursors@ == Seq::new(i as nat, |k: int| 0usize),
                        decreases self.peers@.len() - i,
                    {
                        cursors.push(0);
                        proof {
                            assert(cursors@ =~= Seq::new((i + 1) as nat, |k: int| 0usize));
                        }
                        i = i + 1;
                    }
                    self.cursors = cursors;
                    self.tracking = true;
                }
                Ok(Some(reply_to(input, Payload::TopologyOk)))
            },
            Payload::Propagate { messages, start_idx } => {
                let n = messages.len();
                if *start_idx > usize::MAX - n {
                    return Err(StepError::OffsetOverflow);
                }
                self.log.merge(messages);
                let end_idx = *start_idx + n;
                Ok(Some(reply_to(input, Payload::PropagateOk { end_idx })))
            },
            Payload::PropagateOk { end_idx } => {
                self.advance_cursor(&input.src, *end_idx);
                Ok(None)
            },
            Payload::BroadcastOk => Err(StepError::ProtocolViolation),
            Payload::ReadOk { .. } => Err(StepError::ProtocolViolation),
            Payload::TopologyOk => Err(StepError::ProtocolViolation),
        }
    }

    /// One gossip tick: a `Propagate` request, with a fresh `msg_id`, for
    /// each peer whose cursor lies behind the end of the log, in the order
    /// of the peers. Nothing else changes. Should the counter of message ids
    /// run out, the tick stops early.
    pub fn gossip(&mut self) -> (r: Vec<Message<Payload>>)
        requires
            old(self).wf(),
        ensures
            final(self).wf(),
            final(self).id() == old(self).id(),
            final(self).peers() == old(self).peers(),
            final(self).log() == old(self).log(),
            final(self).tracking() == old(self).tracking(),
            final(self).cursors() == old(self).cursors(),
            final(self).next_msg_id() == old(self).next_msg_id() + r@.len(),
            final(self).next_msg_id() <= usize::MAX,
            forall|k: int|
                0 <= k < r@.len() ==> ((#[trigger] r@[k]).body.msg_id matches Some(m)
                    && old(self).next_msg_id() <= m < final(self).next_msg_id()),
            forall|k: int, l: int|
                0 <= k < r@.len() && 0 <= l < r@.len() && k != l ==> (#[trigger] r@[k]).body.msg_id
                    != (#[trigger] r@[l]).body.msg_id,
            r@.len() <= lagging(
                old(self).cursors(),
                old(self).log().len(),
                old(self).cursors().len() as int,
            ).len(),
            r@.len() < lagging(
                old(self).cursors(),
                old(self).log().len(),
                old(self).cursors().len() as int,
            ).len() ==> final(self).next_msg_id() == usize::MAX,
            forall|k: int|
                0 <= k < r@.len() ==> old(self).propagation(
                    #[trigger] r@[k],
                    lagging(
                        old(self).cursors(),
                        old(self).log().len(),
                        old(self).cursors().len() as int,
                    )[k],
                    old(self).next_msg_id() + k,
                ),
    {
        let ghost start = *self;
        let ghost cs = self.cursors@;
        let ghost ts = lagging(cs, self.log@.len(), cs.len() as int);
        let n = self.cursors.len();
        let len = self.log.len();
        let mut out: Vec<Message<Payload>> = Vec::new();
        let mut i: usize = 0;
        while i < n && self.next_msg_id < usize::MAX
            invariant
                start.wf(),
                self.node_id == start.node_id,
                self.peers == start.peers,
                self.log == start.log,
                self.tracking == start.tracking,
                self.cursors == start.cursors,
                cs == start.cursors@,
                n == cs.len(),
                len == start.log@.len(),
                0 <= i <= n,
                out@.len() == lagging(cs, len as nat, i as int).len(),
                self.next_msg_id == start.next_msg_id + out@.len(),
                forall|k: int|
                    0 <= k < out@.len() ==> start.propagation(
                        #[trigger] out@[k],
                        lagging(cs, len as nat, i as int)[k],
                        start.next_msg_id() + k,
                    ),
            decreases n - i,
        {
            if self.cursors[i] < len {
                let c = self.cursors[i];
                let messages = self.log.suffix(c);
                let m = Message {
                    src: self.node_id.clone(),
                    dest: self.peers[i].clone(),
                    body: Body {
                        payload: Payload::Propagate { messages, start_idx: c },
                        in_reply_to: None,
                        msg_id: Some(self.next_msg_id),
                    },
                };
                proof {
                    assert(start.peers()[i as int] == start.peers@[i as int]@);
                }
                out.push(m);
                self.next_msg_id = self.next_msg_id + 1;
            }
            i = i + 1;
        }
        proof {
            lemma_lagging_prefix(cs, len as nat, i as int, n as int);
            let li = lagging(cs, len as nat, i as int);
            assert forall|k: int| 0 <= k < out@.len() implies li[k] == ts[k] by {
                assert(ts.take(li.len() as int)[k] == ts[k]);
            }
        }
        out
    }
}

} // verus!

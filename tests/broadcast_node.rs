use gossip_gloomers::message::{Body, Init, Message, Payload};
use gossip_gloomers::node::{Node, StepError};

fn ids(names: &[&str]) -> Vec<String> {
    names.iter().map(|n| n.to_string()).collect()
}

fn request(src: &str, dest: &str, msg_id: usize, payload: Payload) -> Message<Payload> {
    Message {
        src: src.to_string(),
        dest: dest.to_string(),
        body: Body { payload, in_reply_to: None, msg_id: Some(msg_id) },
    }
}

fn node_with_topology(id: &str, cluster: &[&str]) -> Node {
    let mut node = Node::new(id.to_string(), ids(cluster));
    let reply = node
        .step(request("c0", id, 1, Payload::Topology { topology: vec![] }))
        .unwrap()
        .unwrap();
    assert_eq!(reply.body.payload, Payload::TopologyOk);
    node
}

/// Hands every message to the node it is addressed to, and returns the replies.
fn deliver(nodes: &mut [Node], messages: Vec<Message<Payload>>) -> Vec<Message<Payload>> {
    let mut replies = vec![];
    for m in messages {
        let target = nodes.iter_mut().find(|n| *n.node_id() == m.dest).unwrap();
        if let Some(reply) = target.step(m).unwrap() {
            replies.push(reply);
        }
    }
    replies
}

#[test]
fn duplicate_broadcast_is_stored_once() {
    let mut a = node_with_topology("n1", &["n1", "n2"]);
    for (k, v) in [5usize, 7, 5].iter().enumerate() {
        let reply = a.step(request("c1", "n1", k, Payload::Broadcast { message: *v })).unwrap();
        assert_eq!(reply.unwrap().body.payload, Payload::BroadcastOk);
    }
    let reply = a.step(request("c1", "n1", 9, Payload::Read)).unwrap().unwrap();
    assert_eq!(reply.body.payload, Payload::ReadOk { messages: vec![5, 7] });
    assert_eq!(a.log_len(), 2);
}

#[test]
fn replies_echo_the_request_id() {
    let mut a = node_with_topology("n1", &["n1", "n2"]);
    let reply = a.step(request("c1", "n1", 42, Payload::Broadcast { message: 3 })).unwrap().unwrap();
    assert_eq!(reply.src, "n1");
    assert_eq!(reply.dest, "c1");
    assert_eq!(reply.body.in_reply_to, Some(42));
    assert_eq!(reply.body.msg_id, None);
    let reply = a.step(request("c1", "n1", 43, Payload::Read)).unwrap().unwrap();
    assert_eq!(reply.body.in_reply_to, Some(43));
}

#[test]
fn gossip_reaches_a_third_node_through_a_second() {
    let mut nodes = vec![
        node_with_topology("a", &["a", "b", "c"]),
        node_with_topology("b", &["a", "b", "c"]),
        node_with_topology("c", &["a", "b", "c"]),
    ];
    nodes[0].step(request("c1", "a", 1, Payload::Broadcast { message: 1 })).unwrap();
    // A's tick goes to B only, as if the copy for C were lost.
    let from_a: Vec<_> = nodes[0].gossip().into_iter().filter(|m| m.dest == "b").collect();
    assert_eq!(from_a.len(), 1);
    let acks = deliver(&mut nodes, from_a);
    deliver(&mut nodes, acks);
    let from_b = nodes[1].gossip();
    let acks = deliver(&mut nodes, from_b);
    deliver(&mut nodes, acks);
    let reply = nodes[2].step(request("c2", "c", 5, Payload::Read)).unwrap().unwrap();
    assert_eq!(reply.body.payload, Payload::ReadOk { messages: vec![1] });
}

#[test]
fn retransmitted_propagate_is_merged_once() {
    let mut a = node_with_topology("a", &["a", "b"]);
    let mut b = node_with_topology("b", &["a", "b"]);
    a.step(request("c1", "a", 1, Payload::Broadcast { message: 9 })).unwrap();
    let sent = a.gossip();
    assert_eq!(sent.len(), 1);
    assert_eq!(sent[0].body.payload, Payload::Propagate { messages: vec![9], start_idx: 0 });
    let first = b.step(sent[0].clone()).unwrap().unwrap();
    let second = b.step(sent[0].clone()).unwrap().unwrap();
    assert_eq!(b.snapshot(), vec![9]);
    assert_eq!(first.body.payload, Payload::PropagateOk { end_idx: 1 });
    assert_eq!(second.body.payload, Payload::PropagateOk { end_idx: 1 });
    assert_eq!(a.step(first).unwrap(), None);
    assert_eq!(a.peer_cursor(&"b".to_string()), Some(1));
    assert_eq!(a.step(second).unwrap(), None);
    assert_eq!(a.peer_cursor(&"b".to_string()), Some(1));
    assert_eq!(a.snapshot(), vec![9]);
    assert!(a.gossip().is_empty());
}

#[test]
fn propagate_twice_gives_same_log() {
    let mut b = node_with_topology("b", &["a", "b"]);
    b.step(request("c1", "b", 1, Payload::Broadcast { message: 4 })).unwrap();
    let p = request("a", "b", 7, Payload::Propagate { messages: vec![3, 4, 3, 8], start_idx: 2 });
    let r = b.step(p.clone()).unwrap().unwrap();
    assert_eq!(r.body.payload, Payload::PropagateOk { end_idx: 6 });
    assert_eq!(r.body.in_reply_to, Some(7));
    let once = b.snapshot();
    b.step(p).unwrap();
    assert_eq!(b.snapshot(), once);
    assert_eq!(once, vec![4, 3, 8]);
}

#[test]
fn propagate_from_unknown_sender_is_merged() {
    let mut b = node_with_topology("b", &["a", "b"]);
    let p = request("z", "b", 7, Payload::Propagate { messages: vec![1, 2], start_idx: 100 });
    let r = b.step(p).unwrap().unwrap();
    assert_eq!(r.dest, "z");
    assert_eq!(r.body.payload, Payload::PropagateOk { end_idx: 102 });
    assert_eq!(b.snapshot(), vec![1, 2]);
}

#[test]
fn propagate_offset_overflow_is_an_error() {
    let mut b = node_with_topology("b", &["a", "b"]);
    let p = request("a", "b", 7, Payload::Propagate { messages: vec![1, 2], start_idx: usize::MAX - 1 });
    assert_eq!(b.step(p), Err(StepError::OffsetOverflow));
    assert!(b.snapshot().is_empty());
}

#[test]
fn acknowledgments_as_requests_are_violations() {
    let mut a = node_with_topology("a", &["a", "b"]);
    for p in [Payload::BroadcastOk, Payload::ReadOk { messages: vec![1] }, Payload::TopologyOk] {
        assert_eq!(a.step(request("c1", "a", 1, p)), Err(StepError::ProtocolViolation));
    }
    assert!(a.snapshot().is_empty());
}

#[test]
fn cursor_never_moves_back() {
    let mut a = node_with_topology("a", &["a", "b", "c"]);
    for v in [10usize, 20, 30] {
        a.step(request("c1", "a", v, Payload::Broadcast { message: v })).unwrap();
    }
    let b = "b".to_string();
    assert_eq!(a.peer_cursor(&b), Some(0));
    a.step(request("b", "a", 1, Payload::PropagateOk { end_idx: 2 })).unwrap();
    assert_eq!(a.peer_cursor(&b), Some(2));
    a.step(request("b", "a", 2, Payload::PropagateOk { end_idx: 1 })).unwrap();
    assert_eq!(a.peer_cursor(&b), Some(2));
    a.step(request("b", "a", 3, Payload::PropagateOk { end_idx: 50 })).unwrap();
    assert_eq!(a.peer_cursor(&b), Some(3));
    assert_eq!(a.peer_cursor(&"c".to_string()), Some(0));
    assert_eq!(a.peer_cursor(&"q".to_string()), None);
}

#[test]
fn gossip_sends_suffixes_with_fresh_ids() {
    let mut a = node_with_topology("a", &["a", "b", "c"]);
    assert!(a.gossip().is_empty());
    for v in [1usize, 2, 3] {
        a.step(request("c1", "a", v, Payload::Broadcast { message: v })).unwrap();
    }
    a.step(request("b", "a", 1, Payload::PropagateOk { end_idx: 2 })).unwrap();
    let first = a.gossip();
    assert_eq!(first.len(), 2);
    assert_eq!(first[0].src, "a");
    assert_eq!(first[0].dest, "b");
    assert_eq!(first[0].body.payload, Payload::Propagate { messages: vec![3], start_idx: 2 });
    assert_eq!(first[1].dest, "c");
    assert_eq!(first[1].body.payload, Payload::Propagate { messages: vec![1, 2, 3], start_idx: 0 });
    assert_eq!(first[0].body.msg_id, Some(0));
    assert_eq!(first[1].body.msg_id, Some(1));
    assert_eq!(first[0].body.in_reply_to, None);
    let second = a.gossip();
    assert_eq!(second[0].body.msg_id, Some(2));
    assert_eq!(second[1].body.msg_id, Some(3));
}

#[test]
fn no_gossip_before_topology() {
    let mut a = Node::new("a".to_string(), ids(&["a", "b"]));
    a.step(request("c1", "a", 1, Payload::Broadcast { message: 1 })).unwrap();
    assert!(a.gossip().is_empty());
    assert_eq!(a.peer_cursor(&"b".to_string()), None);
}

#[test]
fn second_topology_keeps_cursors() {
    let mut a = node_with_topology("a", &["a", "b"]);
    a.step(request("c1", "a", 1, Payload::Broadcast { message: 1 })).unwrap();
    a.step(request("b", "a", 2, Payload::PropagateOk { end_idx: 1 })).unwrap();
    a.step(request("c0", "a", 3, Payload::Topology { topology: vec![] })).unwrap();
    assert_eq!(a.peer_cursor(&"b".to_string()), Some(1));
}

#[test]
fn peers_exclude_self_and_repeats() {
    let a = Node::new("b".to_string(), ids(&["a", "b", "c", "a"]));
    assert_eq!(*a.peer_ids(), ids(&["a", "c"]));
    assert_eq!(a.node_id(), "b");
}

#[test]
fn handshake_sets_up_node_and_reply() {
    let request = Message {
        src: "c0".to_string(),
        dest: "n3".to_string(),
        body: Body {
            payload: Init { node_id: "n3".to_string(), node_ids: ids(&["n1", "n2", "n3"]) },
            in_reply_to: None,
            msg_id: Some(1),
        },
    };
    let (node, reply) = Node::from_init(request);
    assert_eq!(node.node_id(), "n3");
    assert_eq!(*node.peer_ids(), ids(&["n1", "n2"]));
    assert_eq!(reply.src, "n3");
    assert_eq!(reply.dest, "c0");
    assert_eq!(reply.body.in_reply_to, Some(1));
}

#[test]
fn one_round_of_gossip_makes_all_reads_agree() {
    let names = ["a", "b", "c"];
    let mut nodes: Vec<Node> = names.iter().map(|n| node_with_topology(n, &names)).collect();
    nodes[0].step(request("c1", "a", 1, Payload::Broadcast { message: 1 })).unwrap();
    nodes[1].step(request("c1", "b", 2, Payload::Broadcast { message: 2 })).unwrap();
    nodes[1].step(request("c1", "b", 3, Payload::Broadcast { message: 1 })).unwrap();
    nodes[2].step(request("c1", "c", 4, Payload::Broadcast { message: 3 })).unwrap();
    for k in 0..3 {
        let sent = nodes[k].gossip();
        let acks = deliver(&mut nodes, sent);
        deliver(&mut nodes, acks);
    }
    for k in 0..3 {
        let sent = nodes[k].gossip();
        let acks = deliver(&mut nodes, sent);
        deliver(&mut nodes, acks);
    }
    let mut reads = vec![];
    for n in nodes.iter() {
        let mut values = n.snapshot();
        values.sort();
        reads.push(values);
    }
    assert_eq!(reads[0], vec![1, 2, 3]);
    assert_eq!(reads[1], reads[0]);
    assert_eq!(reads[2], reads[0]);
    for n in nodes.iter_mut() {
        assert!(n.gossip().is_empty());
    }
}

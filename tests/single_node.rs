use gossip_gloomers::message::{Body, Message};
use gossip_gloomers::node::StepError;
use gossip_gloomers::single::{SingleBroadCaseNode, SinglePayload};
use gossip_gloomers::value_log::ValueLog;

fn request(msg_id: usize, payload: SinglePayload) -> Message<SinglePayload> {
    Message {
        src: "c1".to_string(),
        dest: "n1".to_string(),
        body: Body { payload, in_reply_to: None, msg_id: Some(msg_id) },
    }
}

#[test]
fn single_node_stores_and_reads() {
    let mut node = SingleBroadCaseNode::new();
    let r = node.broadcast(request(1, SinglePayload::Broadcast { message: 5 })).unwrap();
    assert_eq!(r.body.payload, SinglePayload::BroadcastOk);
    assert_eq!(r.body.in_reply_to, Some(1));
    assert_eq!(r.dest, "c1");
    node.broadcast(request(2, SinglePayload::Broadcast { message: 7 })).unwrap();
    node.broadcast(request(3, SinglePayload::Broadcast { message: 5 })).unwrap();
    let r = node.broadcast(request(4, SinglePayload::Read)).unwrap();
    assert_eq!(r.body.payload, SinglePayload::ReadOk { messages: vec![5, 7] });
    assert_eq!(node.snapshot(), vec![5, 7]);
}

#[test]
fn single_node_answers_handshake_and_topology() {
    let mut node = SingleBroadCaseNode::new();
    let init = SinglePayload::Init { node_id: "n1".to_string(), node_ids: vec!["n1".to_string()] };
    let r = node.broadcast(request(1, init)).unwrap();
    assert_eq!(r.body.payload, SinglePayload::InitOk);
    let r = node.broadcast(request(2, SinglePayload::Topology { topology: vec![] })).unwrap();
    assert_eq!(r.body.payload, SinglePayload::TopologyOk);
    assert_eq!(r.body.in_reply_to, Some(2));
}

#[test]
fn single_node_rejects_acknowledgments() {
    let mut node = SingleBroadCaseNode::new();
    node.broadcast(request(1, SinglePayload::Broadcast { message: 4 })).unwrap();
    let violation = Err(StepError::ProtocolViolation);
    assert_eq!(node.broadcast(request(2, SinglePayload::BroadcastOk)), violation);
    assert_eq!(node.broadcast(request(3, SinglePayload::InitOk)), violation);
    assert_eq!(node.broadcast(request(4, SinglePayload::ReadOk { messages: vec![1] })), violation);
    assert_eq!(node.broadcast(request(5, SinglePayload::TopologyOk)), violation);
    assert_eq!(node.snapshot(), vec![4]);
}

#[test]
fn log_append_returns_positions() {
    let mut log = ValueLog::new();
    assert_eq!(log.append(5), 0);
    assert_eq!(log.append(7), 1);
    assert_eq!(log.append(5), 0);
    assert_eq!(log.len(), 2);
    assert!(log.contains(7));
    assert!(!log.contains(9));
    assert_eq!(log.position(7), Some(1));
    assert_eq!(log.suffix(1), vec![7]);
    assert_eq!(log.suffix(2), Vec::<usize>::new());
}

#[test]
fn log_merge_is_idempotent() {
    let mut log = ValueLog::new();
    log.merge(&vec![2, 2, 1]);
    assert_eq!(log.snapshot(), vec![2, 1]);
    log.merge(&vec![2, 2, 1]);
    assert_eq!(log.snapshot(), vec![2, 1]);
    log.merge(&vec![3, 1]);
    assert_eq!(log.snapshot(), vec![2, 1, 3]);
}

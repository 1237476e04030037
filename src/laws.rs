use vstd::prelude::*;

use crate::message::{Message, Payload};
use crate::node::{acked, Node};
use crate::value_log::merged;

verus! {

broadcast use vstd::seq_lib::lemma_seq_contains_after_push;

/// The values of a merged log are those of the log and of the values offered.
pub proof fn lemma_merged_set(log: Seq<usize>, vals: Seq<usize>)
    ensures
        merged(log, vals).to_set() == log.to_set().union(vals.to_set()),
        merged(log, vals).len() >= log.len(),
    decreases vals.len(),
{
    if vals.len() == 0 {
        assert(vals.to_set() =~= Set::<usize>::empty());
        assert(log.to_set().union(vals.to_set()) =~= log.to_set());
    } else {
        let rest = vals.drop_last();
        let v = vals.last();
        lemma_merged_set(log, rest);
        let m = merged(log, rest);
        assert(vals =~= rest.push(v));
        rest.lemma_push_to_set_commute(v);
        if m.contains(v) {
            assert(m.to_set().contains(v));
            assert(log.to_set().union(vals.to_set()) =~= m.to_set());
        } else {
            m.lemma_push_to_set_commute(v);
            assert(log.to_set().union(vals.to_set()) =~= m.to_set().insert(v));
        }
    }
}

/// Merging into a log without repeats gives a log without repeats.
pub proof fn lemma_merged_unique(log: Seq<usize>, vals: Seq<usize>)
    requires
        log.no_duplicates(),
    ensures
        merged(log, vals).no_duplicates(),
    decreases vals.len(),
{
    if vals.len() > 0 {
        lemma_merged_unique(log, vals.drop_last());
        let m = merged(log, vals.drop_last());
        let v = vals.last();
        if !m.contains(v) {
            assert forall|i: int, j: int|
                0 <= i < m.push(v).len() && 0 <= j < m.push(v).len() && i != j implies m.push(
                v,
            )[i] != m.push(v)[j] by {
                if i < m.len() && j == m.len() {
                    assert(m.contains(m[i]));
                } else if j < m.len() && i == m.len() {
                    assert(m.contains(m[j]));
                }
            }
        }
    }
}

/// Offering values that are all present already leaves a log as it is.
pub proof fn lemma_merged_present(log: Seq<usize>, vals: Seq<usize>)
    requires
        forall|k: int| 0 <= k < vals.len() ==> log.contains(#[trigger] vals[k]),
    ensures
        merged(log, vals) == log,
    decreases vals.len(),
{
    if vals.len() > 0 {
        lemma_merged_present(log, vals.drop_last());
        assert(log.contains(vals[vals.len() - 1]));
    }
}

/// No duplication: whatever values are delivered, repeats included, the log
/// holds each distinct value seen exactly once, so its length is the number
/// of distinct values among what it held and what was delivered.
pub proof fn law_no_duplication(log: Seq<usize>, vals: Seq<usize>)
    requires
        log.no_duplicates(),
    ensures
        merged(log, vals).no_duplicates(),
        merged(log, vals).to_set() == log.to_set().union(vals.to_set()),
        merged(log, vals).len() == log.to_set().union(vals.to_set()).len(),
{
    lemma_merged_set(log, vals);
    lemma_merged_unique(log, vals);
    merged(log, vals).unique_seq_to_set();
}

/// Idempotent merge: offering the same values a second time changes nothing.
pub proof fn law_merge_idempotent(log: Seq<usize>, vals: Seq<usize>)
    ensures
        merged(merged(log, vals), vals) == merged(log, vals),
{
    lemma_merged_set(log, vals);
    let m = merged(log, vals);
    assert forall|k: int| 0 <= k < vals.len() implies m.contains(#[trigger] vals[k]) by {
        assert(vals.to_set().contains(vals[k]));
        assert(m.to_set().contains(vals[k]));
    }
    lemma_merged_present(m, vals);
}

/// A replication request delivers: if the peer holds every value before the
/// sender's cursor, then after merging the suffix from that cursor it holds
/// every value of the sender's log.
pub proof fn law_propagate_delivers(sender: Seq<usize>, receiver: Seq<usize>, cursor: nat)
    requires
        cursor <= sender.len(),
        forall|k: int| 0 <= k < cursor ==> receiver.contains(#[trigger] sender[k]),
    ensures
        sender.to_set().subset_of(
            merged(receiver, sender.subrange(cursor as int, sender.len() as int)).to_set(),
        ),
{
    let suffix = sender.subrange(cursor as int, sender.len() as int);
    lemma_merged_set(receiver, suffix);
    assert forall|v: usize| sender.to_set().contains(v) implies merged(
        receiver,
        suffix,
    ).to_set().contains(v) by {
        let k = choose|k: int| 0 <= k < sender.len() && sender[k] == v;
        if k < cursor {
            assert(receiver.contains(sender[k]));
            assert(receiver.to_set().contains(v));
        } else {
            assert(suffix[k - cursor] == v);
            assert(suffix.to_set().contains(v));
        }
    }
}

/// Two nodes that have each merged the other's whole log hold the same set of values.
pub proof fn law_exchange_agrees(a: Seq<usize>, b: Seq<usize>)
    ensures
        merged(a, b).to_set() == merged(b, a).to_set(),
{
    lemma_merged_set(a, b);
    lemma_merged_set(b, a);
    assert(a.to_set().union(b.to_set()) =~= b.to_set().union(a.to_set()));
}

/// A gossip request delivers: take any request that a gossip tick emits for
/// the peer at position `i`. Suppose the peer already holds every value before
/// that peer's cursor. Once the peer merges the request's values, as `step`
/// does with a `Propagate`, it holds every value of the sender's log.
pub proof fn law_gossip_delivers(
    sender: Node,
    m: Message<Payload>,
    i: int,
    id: int,
    receiver: Seq<usize>,
)
    requires
        sender.wf(),
        0 <= i < sender.cursors().len(),
        sender.propagation(m, i, id),
        forall|k: int|
            0 <= k < sender.cursors()[i] ==> receiver.contains(#[trigger] sender.log()[k]),
    ensures
        m.body.payload matches Payload::Propagate { messages, .. } && sender.log().to_set().subset_of(
            merged(receiver, messages@).to_set(),
        ),
{
    sender.lemma_wf();
    law_propagate_delivers(sender.log(), receiver, sender.cursors()[i] as nat);
}

/// A log after merging, in order, each log of `others`.
pub open spec fn received(log: Seq<usize>, others: Seq<Seq<usize>>) -> Seq<usize>
    decreases others.len(),
{
    if others.len() == 0 {
        log
    } else {
        merged(received(log, others.drop_last()), others.last())
    }
}

/// Every value held by any of `logs`.
pub open spec fn union_of(logs: Seq<Seq<usize>>) -> Set<usize>
    decreases logs.len(),
{
    if logs.len() == 0 {
        Set::empty()
    } else {
        union_of(logs.drop_last()).union(logs.last().to_set())
    }
}

pub proof fn lemma_received_set(log: Seq<usize>, others: Seq<Seq<usize>>)
    ensures
        received(log, others).to_set() == log.to_set().union(union_of(others)),
    decreases others.len(),
{
    if others.len() == 0 {
        assert(log.to_set().union(Set::empty()) =~= log.to_set());
    } else {
        lemma_received_set(log, others.drop_last());
        lemma_merged_set(received(log, others.drop_last()), others.last());
        assert(received(log, others).to_set() =~= log.to_set().union(union_of(others)));
    }
}

pub proof fn lemma_union_of_member(logs: Seq<Seq<usize>>, j: int)
    requires
        0 <= j < logs.len(),
    ensures
        logs[j].to_set().subset_of(union_of(logs)),
    decreases logs.len(),
{
    if j < logs.len() - 1 {
        lemma_union_of_member(logs.drop_last(), j);
    }
}

/// Convergence in one round: in a cluster where every node gossips with
/// every other, once each node has merged every node's log, all nodes hold
/// the same set of values, the union of what any of them held.
pub proof fn law_round_converges(logs: Seq<Seq<usize>>, i: int, j: int)
    requires
        0 <= i < logs.len(),
        0 <= j < logs.len(),
    ensures
        received(logs[i], logs).to_set() == union_of(logs),
        received(logs[i], logs).to_set() == received(logs[j], logs).to_set(),
{
    lemma_received_set(logs[i], logs);
    lemma_received_set(logs[j], logs);
    lemma_union_of_member(logs, i);
    lemma_union_of_member(logs, j);
    assert(logs[i].to_set().union(union_of(logs)) =~= union_of(logs));
    assert(logs[j].to_set().union(union_of(logs)) =~= union_of(logs));
}

/// The cursors after a run of acknowledgments, each a peer and an end offset.
pub open spec fn acked_all(
    cursors: Seq<usize>,
    peers: Seq<Seq<char>>,
    acks: Seq<(Seq<char>, nat)>,
    len: nat,
) -> Seq<usize>
    decreases acks.len(),
{
    if acks.len() == 0 {
        cursors
    } else {
        let c = acked_all(cursors, peers, acks.drop_last(), len);
        acked(c, peers, acks.last().0, acks.last().1, len)
    }
}

/// Cursor monotonicity: along any run of acknowledgments no cursor ever
/// moves back: after more of the run, each cursor is at least where it was.
pub proof fn law_cursor_monotone(
    cursors: Seq<usize>,
    peers: Seq<Seq<char>>,
    acks: Seq<(Seq<char>, nat)>,
    len: nat,
    i: int,
    j: int,
)
    requires
        0 <= i <= j <= acks.len(),
        len <= usize::MAX,
    ensures
        acked_all(cursors, peers, acks.take(j), len).len() == cursors.len(),
        forall|p: int|
            0 <= p < cursors.len() ==> acked_all(cursors, peers, acks.take(i), len)[p]
                <= #[trigger] acked_all(cursors, peers, acks.take(j), len)[p],
    decreases j,
{
    if j == 0 {
        assert(acks.take(i) =~= acks.take(j));
    } else {
        let k = if i == j {
            i - 1
        } else {
            i
        };
        law_cursor_monotone(cursors, peers, acks, len, k, j - 1);
        assert(acks.take(j).drop_last() =~= acks.take(j - 1));
        let before = acked_all(cursors, peers, acks.take(j - 1), len);
        let after = acked_all(cursors, peers, acks.take(j), len);
        assert(after == acked(before, peers, acks[j - 1].0, acks[j - 1].1, len));
        assert forall|p: int| 0 <= p < cursors.len() implies before[p] <= #[trigger] after[p] by {
        }
    }
}

/// Acknowledgments may be applied twice, or in either order, with the same result.
pub proof fn law_ack_idempotent_commutative(
    cursors: Seq<usize>,
    peers: Seq<Seq<char>>,
    p: Seq<char>,
    q: Seq<char>,
    e: nat,
    f: nat,
    len: nat,
)
    requires
        forall|k: int| 0 <= k < cursors.len() ==> cursors[k] <= len,
        len <= usize::MAX,
    ensures
        acked(acked(cursors, peers, p, e, len), peers, p, e, len) == acked(
            cursors,
            peers,
            p,
            e,
            len,
        ),
        acked(acked(cursors, peers, p, e, len), peers, q, f, len) == acked(
            acked(cursors, peers, q, f, len),
            peers,
            p,
            e,
            len,
        ),
{
    assert(acked(acked(cursors, peers, p, e, len), peers, p, e, len) =~= acked(
        cursors,
        peers,
        p,
        e,
        len,
    ));
    assert(acked(acked(cursors, peers, p, e, len), peers, q, f, len) =~= acked(
        acked(cursors, peers, q, f, len),
        peers,
        p,
        e,
        len,
    ));
}

} // verus!

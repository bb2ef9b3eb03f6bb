//! What holds of every node, whatever it is sent and whenever it ticks.

use crate::error::RaftError;
use crate::log::log::{EntryView, LogView};
use crate::message::{AddressView, EventView, MessageView};
use crate::node::model::{
    accepts,
    agreeing,
    lemma_position,
    NodeView,
    position,
    RoleView,
    splice,
    timeout_in_window,
};
use vstd::prelude::*;

verus! {

/// What a node is given: a tick, or a message. Each comes with the
/// election timeout for the role that it may lead to.
pub enum Input {
    Tick { timeout: u64 },
    Receive { msg: MessageView, timeout: u64 },
}

impl Input {
    /// Whether the election timeout that the input comes with is one that
    /// an election may be given.
    pub open spec fn in_window(self) -> bool {
        match self {
            Input::Tick { timeout } => timeout_in_window(timeout),
            Input::Receive { timeout, .. } => timeout_in_window(timeout),
        }
    }
}

impl NodeView {
    /// The node after one input.
    pub open spec fn advance(self, input: Input) -> Result<NodeView, RaftError> {
        match input {
            Input::Tick { timeout } => self.tick(timeout),
            Input::Receive { msg, timeout } => self.step(msg, timeout),
        }
    }

    /// The node after the inputs, taken in order; the first error where
    /// one of them is refused.
    pub open spec fn run(self, inputs: Seq<Input>) -> Result<NodeView, RaftError>
        decreases inputs.len(),
    {
        if inputs.len() == 0 {
            Ok(self)
        } else {
            match self.advance(inputs[0]) {
                Ok(next) => next.run(inputs.drop_first()),
                Err(e) => Err(e),
            }
        }
    }
}

/// Whether `earlier` is the beginning of `later`.
pub open spec fn begins(earlier: Seq<EntryView>, later: Seq<EntryView>) -> bool {
    earlier.len() <= later.len() && forall|i: int|
        0 <= i < earlier.len() ==> earlier[i] == later[i]
}

/// Whether `later` holds every entry that `earlier` has committed, and
/// has committed no less.
pub open spec fn keeps_committed(earlier: LogView, later: LogView) -> bool {
    &&& earlier.commit_index <= later.commit_index
    &&& forall|i: int| 0 <= i < earlier.commit_index ==> earlier.entries[i] == later.entries[i]
}

/// What one input may do to a node's term, vote and log.
pub open spec fn moves_on(pre: NodeView, post: NodeView) -> bool {
    &&& post.id == pre.id
    &&& post.peers == pre.peers
    &&& pre.term <= post.term
    &&& post.term == pre.term && pre.voted_for() is Some ==> post.voted_for() == pre.voted_for()
    &&& keeps_committed(pre.log, post.log)
    &&& pre.role is Leader && post.role is Leader && post.term == pre.term ==> begins(
        pre.log.entries,
        post.log.entries,
    )
    &&& post.role is Leader && post.term == pre.term ==> !(pre.role is Follower)
    &&& pre.role is Leader && post.term == pre.term ==> post.role is Leader
}

/// Facts on how far a log and entries agree.
pub proof fn lemma_agreeing_bounds(log: LogView, base_index: u64, entries: Seq<EntryView>)
    requires
        base_index <= log.entries.len(),
        base_index + entries.len() < u64::MAX,
    ensures
        agreeing(log, base_index, entries) <= entries.len(),
        base_index + agreeing(log, base_index, entries) <= log.entries.len(),
        forall|k: int|
            0 <= k < agreeing(log, base_index, entries) ==> log.entries[base_index + k].term == (
            #[trigger] entries[k]).term,
    decreases entries.len(),
{
    if entries.len() == 0 || base_index + 1 > log.entries.len() || log.entries[base_index as int].term
        != entries[0].term {
    } else {
        let rest = entries.drop_first();
        lemma_agreeing_bounds(log, (base_index + 1) as u64, rest);
        assert forall|k: int| 0 <= k < agreeing(log, base_index, entries) implies log.entries[base_index
            + k].term == (#[trigger] entries[k]).term by {
            if k > 0 {
                assert(rest[k - 1] == entries[k]);
            }
        }
    }
}

/// The log that a follower has after it took entries is in order, holds
/// what it had committed, and holds the entries taken only where terms
/// agree or the log was replaced.
pub proof fn lemma_splice(log: LogView, base_index: u64, base_term: u64, entries: Seq<EntryView>)
    requires
        log.well_formed(),
        accepts(log, base_index, base_term, entries),
        splice(log, base_index, entries) is Ok,
    ensures
        splice(log, base_index, entries)->Ok_0.well_formed(),
        keeps_committed(log, splice(log, base_index, entries)->Ok_0),
        splice(log, base_index, entries)->Ok_0.term == log.term,
        splice(log, base_index, entries)->Ok_0.voted_for == log.voted_for,
        splice(log, base_index, entries)->Ok_0.commit_index == log.commit_index,
        splice(log, base_index, entries)->Ok_0.entries.len() >= base_index + entries.len(),
        forall|k: int|
            0 <= k < entries.len() ==> (#[trigger] splice(
                log,
                base_index,
                entries,
            )->Ok_0.entries[base_index + k]).term == entries[k].term,
        forall|i: int|
            0 <= i < base_index ==> splice(log, base_index, entries)->Ok_0.entries[i]
                == log.entries[i],
{
    lemma_agreeing_bounds(log, base_index, entries);
    let agreed = agreeing(log, base_index, entries);
    let after = splice(log, base_index, entries)->Ok_0;
    if agreed != entries.len() {
        let keep = base_index + agreed;
        assert(after.entries == log.entries.take(keep) + entries.subrange(
            agreed as int,
            entries.len() as int,
        ));
        assert forall|i: int| 0 <= i < after.entries.len() implies (#[trigger] after.entries[i]).index
            == i + 1 by {
            if i >= keep {
                assert(after.entries[i] == entries[i - base_index]);
            }
        }
        assert forall|k: int| 0 <= k < entries.len() implies (#[trigger] after.entries[base_index
            + k]).term == entries[k].term by {
            if k >= agreed {
                assert(after.entries[base_index + k] == entries[k]);
            }
        }
    }
}

/// A node that is in order stays in order, and one input moves its term,
/// its vote and its log only forward: the term does not go down; within a
/// term a vote, once given, stays; what is committed stays; and a leader
/// that stays leader of its term only adds to its log.
pub proof fn lemma_advance(pre: NodeView, input: Input)
    requires
        pre.well_formed(),
        input.in_window(),
        pre.advance(input) is Ok,
    ensures
        pre.advance(input)->Ok_0.well_formed(),
        moves_on(pre, pre.advance(input)->Ok_0),
{
    let post = pre.advance(input)->Ok_0;
    match input {
        Input::Tick { timeout } => {},
        Input::Receive { msg, timeout } => {
            lemma_step(pre, msg, timeout);
        },
    }
}

/// The same of a message.
pub proof fn lemma_step(pre: NodeView, msg: MessageView, timeout: u64)
    requires
        pre.well_formed(),
        timeout_in_window(timeout),
        pre.step(msg, timeout) is Ok,
    ensures
        pre.step(msg, timeout)->Ok_0.well_formed(),
        moves_on(pre, pre.step(msg, timeout)->Ok_0),
{
    if msg.event.from_client() {
        lemma_step_in_role(pre, msg, timeout);
    } else if msg.term > pre.term {
        let follower = pre.demote(msg, timeout)->Ok_0;
        lemma_step_follower(follower, msg);
    } else if msg.term < pre.term {
    } else {
        lemma_step_in_role(pre, msg, timeout);
    }
}

/// The same of a message that goes to the node's role.
pub proof fn lemma_step_in_role(pre: NodeView, msg: MessageView, timeout: u64)
    requires
        pre.well_formed(),
        timeout_in_window(timeout),
        pre.step_in_role(msg, timeout) is Ok,
    ensures
        pre.step_in_role(msg, timeout)->Ok_0.well_formed(),
        moves_on(pre, pre.step_in_role(msg, timeout)->Ok_0),
{
    match pre.role {
        RoleView::Follower { .. } => lemma_step_follower(pre, msg),
        RoleView::Candidate { .. } => lemma_step_candidate(pre, msg, timeout),
        RoleView::Leader { .. } => lemma_step_leader(pre, msg),
    }
}

/// The same of a message that a follower handles.
pub proof fn lemma_step_follower(pre: NodeView, msg: MessageView)
    requires
        pre.well_formed(),
        pre.role is Follower,
        pre.step_follower(msg) is Ok,
    ensures
        pre.step_follower(msg)->Ok_0.well_formed(),
        moves_on(pre, pre.step_follower(msg)->Ok_0),
        pre.step_follower(msg)->Ok_0.role is Follower,
        pre.step_follower(msg)->Ok_0.term == pre.term,
{
    match (msg.event, msg.from) {
        (EventView::ReplicateEntries { base_index, base_term, entries }, AddressView::Peer(p)) => {
            if accepts(pre.log, base_index, base_term, entries) {
                lemma_splice(pre.log, base_index, base_term, entries);
            }
        },
        _ => {},
    }
}

/// The same of a message that a candidate handles.
pub proof fn lemma_step_candidate(pre: NodeView, msg: MessageView, timeout: u64)
    requires
        pre.well_formed(),
        timeout_in_window(timeout),
        pre.role is Candidate,
        pre.step_candidate(msg, timeout) is Ok,
    ensures
        pre.step_candidate(msg, timeout)->Ok_0.well_formed(),
        moves_on(pre, pre.step_candidate(msg, timeout)->Ok_0),
        pre.step_candidate(msg, timeout)->Ok_0.term == pre.term,
{
    match (msg.event, msg.from) {
        (EventView::Heartbeat { .. }, AddressView::Peer(p)) => {
            lemma_step_follower(pre.follow(Some(p), Some(pre.id), timeout), msg);
        },
        (EventView::ReplicateEntries { .. }, AddressView::Peer(p)) => {
            lemma_step_follower(pre.follow(Some(p), Some(pre.id), timeout), msg);
        },
        _ => {},
    }
}

/// The greatest index that a leader may commit lies between its commit
/// index and the limit, and is one that it may commit where it lies after
/// the commit index; the leader may commit no index after it up to the
/// limit.
pub proof fn lemma_commit_target(node: NodeView, limit: nat)
    ensures
        node.log.commit_index <= node.commit_target(limit),
        node.commit_target(limit) <= limit || node.commit_target(limit) == node.log.commit_index,
        node.commit_target(limit) > node.log.commit_index ==> node.may_commit(
            node.commit_target(limit),
        ),
        forall|n: nat| node.commit_target(limit) < n <= limit ==> !node.may_commit(n),
    decreases limit,
{
    if limit <= node.log.commit_index {
    } else if node.may_commit(limit) {
    } else {
        lemma_commit_target(node, (limit - 1) as nat);
    }
}

/// The same of a message that a leader handles.
pub proof fn lemma_step_leader(pre: NodeView, msg: MessageView)
    requires
        pre.well_formed(),
        pre.role is Leader,
        pre.step_leader(msg) is Ok,
    ensures
        pre.step_leader(msg)->Ok_0.well_formed(),
        moves_on(pre, pre.step_leader(msg)->Ok_0),
        pre.step_leader(msg)->Ok_0.role is Leader,
        pre.step_leader(msg)->Ok_0.term == pre.term,
{
    match (msg.event, msg.from) {
        (EventView::AcceptEntries { last_index }, AddressView::Peer(p)) => {
            lemma_position(pre.peers, p);
            match position(pre.peers, p) {
                Some(i) => {
                    if last_index < u64::MAX {
                        let moved = pre.step_leader(msg)->Ok_0;
                        let before = NodeView { log: pre.log, instructions: pre.instructions, ..moved };
                        lemma_commit_target(before, before.log.last_index());
                    }
                },
                None => {},
            }
        },
        (EventView::RejectEntries, AddressView::Peer(p)) => {
            lemma_position(pre.peers, p);
        },
        (EventView::ConfirmLeader { .. }, AddressView::Peer(p)) => {
            lemma_position(pre.peers, p);
        },
        (EventView::ClientRequest { id, payload }, _) => {
            let appended = NodeView { log: pre.log.append(pre.term, Some(payload)), ..pre };
            lemma_replicate_from(appended, 0);
        },
        _ => {},
    }
}

/// Sending entries to the peers changes nothing but the outbox.
pub proof fn lemma_replicate_from(node: NodeView, i: int)
    requires
        0 <= i,
    ensures
        node.replicate_from(i) == (NodeView { outbox: node.replicate_from(i).outbox, ..node }),
    decreases node.peers.len() - i,
{
    if 0 <= i < node.peers.len() {
        lemma_replicate_from(node.replicate(i), i + 1);
    }
}

/// A node that is in order stays in order through any inputs, and they
/// move its term, its vote and its log only forward.
pub proof fn lemma_run(pre: NodeView, inputs: Seq<Input>)
    requires
        pre.well_formed(),
        forall|i: int| 0 <= i < inputs.len() ==> (#[trigger] inputs[i]).in_window(),
        pre.run(inputs) is Ok,
    ensures
        pre.run(inputs)->Ok_0.well_formed(),
        moves_on(pre, pre.run(inputs)->Ok_0),
    decreases inputs.len(),
{
    if inputs.len() > 0 {
        let next = pre.advance(inputs[0])->Ok_0;
        lemma_advance(pre, inputs[0]);
        let rest = inputs.drop_first();
        assert forall|i: int| 0 <= i < rest.len() implies (#[trigger] rest[i]).in_window() by {
            assert(rest[i] == inputs[i + 1]);
        }
        lemma_run(next, rest);
    }
}

/// The term of a node never goes down, and within a term its vote, once
/// given, is not given again: after any inputs the term is no less than
/// before, and where it is the same and a vote had been given, the vote
/// is the same.
pub proof fn law_metadata_monotonic(pre: NodeView, inputs: Seq<Input>)
    requires
        pre.well_formed(),
        forall|i: int| 0 <= i < inputs.len() ==> (#[trigger] inputs[i]).in_window(),
        pre.run(inputs) is Ok,
    ensures
        pre.term <= pre.run(inputs)->Ok_0.term,
        pre.run(inputs)->Ok_0.term == pre.term && pre.voted_for() is Some ==> pre.run(
            inputs,
        )->Ok_0.voted_for() == pre.voted_for(),
        pre.run(inputs)->Ok_0.log.term == pre.run(inputs)->Ok_0.term,
        pre.run(inputs)->Ok_0.log.voted_for == pre.run(inputs)->Ok_0.voted_for(),
{
    lemma_run(pre, inputs);
}

/// A leader only adds to its log: where a node is leader before and
/// after any inputs, in the same term, the log it had before is the
/// beginning of the log it has after.
pub proof fn law_leader_append_only(pre: NodeView, inputs: Seq<Input>)
    requires
        pre.well_formed(),
        forall|i: int| 0 <= i < inputs.len() ==> (#[trigger] inputs[i]).in_window(),
        pre.run(inputs) is Ok,
        pre.role is Leader,
        pre.run(inputs)->Ok_0.role is Leader,
        pre.run(inputs)->Ok_0.term == pre.term,
    ensures
        begins(pre.log.entries, pre.run(inputs)->Ok_0.log.entries),
{
    lemma_run(pre, inputs);
}

/// What is committed stays: after any inputs the commit index is no less
/// than before, and every entry up to the commit index of before is in
/// the log as it was.
pub proof fn law_commit_durability(pre: NodeView, inputs: Seq<Input>, index: int)
    requires
        pre.well_formed(),
        forall|i: int| 0 <= i < inputs.len() ==> (#[trigger] inputs[i]).in_window(),
        pre.run(inputs) is Ok,
        1 <= index <= pre.log.commit_index,
    ensures
        pre.log.commit_index <= pre.run(inputs)->Ok_0.log.commit_index,
        pre.run(inputs)->Ok_0.log.get(index) == pre.log.get(index),
{
    lemma_run(pre, inputs);
    let post = pre.run(inputs)->Ok_0;
    assert(pre.log.entries[index - 1] == post.log.entries[index - 1]);
}

} // verus!

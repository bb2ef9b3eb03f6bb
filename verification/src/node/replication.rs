//! What one input may do to a node's log and which entries it may send:
//! the facts of a single node on which the matching of logs rests.

use crate::error::RaftError;
use crate::log::{Bound, Range};
use crate::log::log::{EntryView, LogView};
use crate::message::{AddressView, EventView, MessageView};
use crate::node::laws::{Input, lemma_advance};
use crate::node::model::{
    accepts,
    agreeing,
    lemma_position,
    NodeView,
    position,
    RoleView,
    splice,
    timeout_in_window,
};
use vstd::prelude::*;

verus! {

/// The entries of `log` from index `next` on, with the index and the term
/// before them, as a leader sends them.
pub open spec fn cut(log: LogView, next: u64) -> EventView {
    let base_index = if next > 0 {
        (next - 1) as u64
    } else {
        0
    };
    EventView::ReplicateEntries {
        base_index,
        base_term: log.term_at(base_index as int),
        entries: (Range {
            start: Bound::Included(next),
            end: Bound::Included(log.last_index() as u64),
        }).select(log.entries),
    }
}

/// What one input may do to a node's log: nothing; or a leader appends one
/// entry of its term; or a follower takes the entries of a message that
/// its log accepts.
pub open spec fn writes(pre: NodeView, input: Input, post: NodeView) -> bool {
    ||| post.log.entries == pre.log.entries
    ||| {
        &&& pre.role is Leader
        &&& post.role is Leader
        &&& post.term == pre.term
        &&& post.log.entries.len() == pre.log.entries.len() + 1
        &&& post.log.entries.last().term == pre.term
        &&& post.log.entries.drop_last() == pre.log.entries
    }
    ||| {
        &&& post.role is Follower
        &&& input matches Input::Receive { msg, .. }
        &&& msg.event matches EventView::ReplicateEntries { base_index, base_term, entries }
        &&& !(pre.role is Leader && msg.term == pre.term)
        &&& msg.term == post.term
        &&& msg.from is Peer
        &&& accepts(pre.log, base_index, base_term, entries)
        &&& splice(pre.log, base_index, entries) == Ok::<LogView, RaftError>(
            LogView { entries: post.log.entries, ..pre.log },
        )
    }
}

/// Whether every message after the first `from` of the outbox of `post`
/// that replicates entries is a cut of the log of `post`, sent by a leader.
pub open spec fn sends_cuts(from: int, post: NodeView) -> bool {
    forall|k: int|
        from <= k < post.outbox.len() && (#[trigger] post.outbox[k]).event is ReplicateEntries
            ==> post.role is Leader && exists|next: u64|
            next >= 1 && post.outbox[k].event == #[trigger] cut(post.log, next)
}

/// Sending entries to the peers sends cuts of the log.
pub proof fn lemma_replicate_sends_cuts(node: NodeView, i: int, from: int)
    requires
        0 <= i,
        node.well_formed(),
        node.role is Leader,
        0 <= from <= node.outbox.len(),
        sends_cuts(from, node),
    ensures
        sends_cuts(from, node.replicate_from(i)),
        node.replicate_from(i) == (NodeView { outbox: node.replicate_from(i).outbox, ..node }),
    decreases node.peers.len() - i,
{
    if 0 <= i < node.peers.len() {
        let next = node.replicate(i);
        lemma_replicate_once(node, i, from);
        lemma_replicate_sends_cuts(next, i + 1, from);
    }
}

/// Sending entries to one peer sends a cut of the log.
pub proof fn lemma_replicate_once(node: NodeView, i: int, from: int)
    requires
        0 <= i < node.peers.len(),
        node.well_formed(),
        node.role is Leader,
        0 <= from <= node.outbox.len(),
        sends_cuts(from, node),
    ensures
        sends_cuts(from, node.replicate(i)),
        node.replicate(i).well_formed(),
        node.replicate(i) == (NodeView { outbox: node.replicate(i).outbox, ..node }),
{
    let after = node.replicate(i);
    let next = node.role->Leader_next_index[i];
    assert(next >= 1);
    assert(after.outbox.last().event == cut(node.log, next));
    assert forall|k: int|
        from <= k < after.outbox.len() && (#[trigger] after.outbox[k]).event
            is ReplicateEntries implies after.role is Leader && exists|next: u64|
        next >= 1 && after.outbox[k].event == #[trigger] cut(after.log, next) by {
        if k < node.outbox.len() {
            assert(after.outbox[k] == node.outbox[k]);
            let n = choose|n: u64| n >= 1 && node.outbox[k].event == #[trigger] cut(node.log, n);
            assert(after.outbox[k].event == cut(after.log, n));
        } else {
            assert(after.outbox[k].event == cut(after.log, next));
        }
    }
}

/// A message that a follower handles writes its log as replication
/// allows, and sends no entries.
pub proof fn lemma_follower_writes(pre: NodeView, msg: MessageView, timeout: u64)
    requires
        pre.well_formed(),
        pre.role is Follower,
        msg.term == pre.term || msg.event.from_client(),
        pre.step_follower(msg) is Ok,
    ensures
        writes(pre, Input::Receive { msg, timeout }, pre.step_follower(msg)->Ok_0),
        sends_cuts(pre.outbox.len() as int, pre.step_follower(msg)->Ok_0),
        pre.step_follower(msg)->Ok_0.role is Follower,
{
    let post = pre.step_follower(msg)->Ok_0;
    match (msg.event, msg.from) {
        (EventView::ReplicateEntries { base_index, base_term, entries }, AddressView::Peer(p)) => {
            if accepts(pre.log, base_index, base_term, entries) {
                let log = splice(pre.log, base_index, entries)->Ok_0;
                assert(log == LogView { entries: post.log.entries, ..pre.log }) by {
                    crate::node::laws::lemma_splice(pre.log, base_index, base_term, entries);
                }
            }
        },
        (EventView::ClientRequest { id, payload }, _) => {
            assert(!(post.outbox.last().event is ReplicateEntries));
        },
        _ => {},
    }
}

/// One input writes a node's log as replication allows, and the entries
/// that the node sends are cuts of its log.
pub proof fn lemma_writes(pre: NodeView, input: Input)
    requires
        pre.well_formed(),
        input.in_window(),
        pre.advance(input) is Ok,
    ensures
        writes(pre, input, pre.advance(input)->Ok_0),
        sends_cuts(pre.outbox.len() as int, pre.advance(input)->Ok_0),
{
    let post = pre.advance(input)->Ok_0;
    lemma_advance(pre, input);
    match input {
        Input::Tick { timeout } => {
            assert(post.log.entries == pre.log.entries);
        },
        Input::Receive { msg, timeout } => {
            if msg.event.from_client() {
                lemma_in_role_writes(pre, msg, timeout);
            } else if msg.term > pre.term {
                let follower = pre.demote(msg, timeout)->Ok_0;
                lemma_follower_writes(follower, msg, timeout);
                let after = follower.step_follower(msg)->Ok_0;
                assert(follower.log.entries == pre.log.entries);
                assert(follower.outbox == pre.outbox);
                if after.log.entries != pre.log.entries {
                    let base_index = msg.event->ReplicateEntries_base_index;
                    let base_term = msg.event->ReplicateEntries_base_term;
                    let entries = msg.event->ReplicateEntries_entries;
                    assert(agreeing(follower.log, base_index, entries) == agreeing(
                        pre.log,
                        base_index,
                        entries,
                    )) by {
                        lemma_agreeing_same(follower.log, pre.log, base_index, entries);
                    }
                }
            } else if msg.term < pre.term {
            } else {
                lemma_in_role_writes(pre, msg, timeout);
            }
        },
    }
}

/// How far a log and entries agree depends on the log's entries alone.
pub proof fn lemma_agreeing_same(a: LogView, b: LogView, base_index: u64, entries: Seq<EntryView>)
    requires
        a.entries == b.entries,
    ensures
        agreeing(a, base_index, entries) == agreeing(b, base_index, entries),
    decreases entries.len(),
{
    if entries.len() == 0 || base_index + 1 > a.entries.len() || a.entries[base_index as int].term
        != entries[0].term {
    } else {
        lemma_agreeing_same(a, b, (base_index + 1) as u64, entries.drop_first());
    }
}

/// The same of a message that goes to the node's role.
pub proof fn lemma_in_role_writes(pre: NodeView, msg: MessageView, timeout: u64)
    requires
        pre.well_formed(),
        timeout_in_window(timeout),
        msg.term == pre.term || msg.event.from_client(),
        pre.step_in_role(msg, timeout) is Ok,
    ensures
        writes(pre, Input::Receive { msg, timeout }, pre.step_in_role(msg, timeout)->Ok_0),
        sends_cuts(pre.outbox.len() as int, pre.step_in_role(msg, timeout)->Ok_0),
{
    let input = Input::Receive { msg, timeout };
    let post = pre.step_in_role(msg, timeout)->Ok_0;
    match pre.role {
        RoleView::Follower { .. } => {
            lemma_follower_writes(pre, msg, timeout);
        },
        RoleView::Candidate { ticks, election_timeout, votes } => {
            match (msg.event, msg.from) {
                (EventView::Heartbeat { .. }, AddressView::Peer(p)) => {
                    let follower = pre.follow(Some(p), Some(pre.id), timeout);
                    lemma_follower_writes(follower, msg, timeout);
                },
                (EventView::ReplicateEntries { base_index, base_term, entries }, AddressView::Peer(p)) => {
                    let follower = pre.follow(Some(p), Some(pre.id), timeout);
                    lemma_follower_writes(follower, msg, timeout);
                },
                (EventView::GrantVote, AddressView::Peer(p)) => {
                    assert(post.log.entries == pre.log.entries);
                },
                (EventView::ClientRequest { .. }, _) => {
                    assert(!(post.outbox.last().event is ReplicateEntries));
                },
                _ => {},
            }
        },
        RoleView::Leader { .. } => {
            match (msg.event, msg.from) {
                (EventView::ClientRequest { id, payload }, _) => {
                    let appended = NodeView { log: pre.log.append(pre.term, Some(payload)), ..pre };
                    assert(appended.well_formed());
                    lemma_replicate_sends_cuts(appended, 0, pre.outbox.len() as int);
                    assert(post.log.entries.drop_last() =~= pre.log.entries);
                },
                (EventView::ConfirmLeader { commit_index, has_committed }, AddressView::Peer(p)) => {
                    lemma_position(pre.peers, p);
                    match position(pre.peers, p) {
                        Some(i) => {
                            if !has_committed {
                                let noted = NodeView {
                                    instructions: post.instructions,
                                    ..pre
                                };
                                lemma_replicate_once(noted, i, pre.outbox.len() as int);
                            }
                        },
                        None => {},
                    }
                },
                (EventView::AcceptEntries { .. }, AddressView::Peer(p)) => {
                    lemma_position(pre.peers, p);
                    assert(post.log.entries == pre.log.entries);
                    assert(post.outbox == pre.outbox);
                },
                (EventView::RejectEntries, AddressView::Peer(p)) => {
                    lemma_position(pre.peers, p);
                    match position(pre.peers, p) {
                        Some(i) => {
                            let stepped = NodeView { outbox: pre.outbox, ..post };
                            assert(stepped.well_formed());
                            lemma_replicate_once(stepped, i, pre.outbox.len() as int);
                        },
                        None => {},
                    }
                },
                _ => {},
            }
        },
    }
}

} // verus!

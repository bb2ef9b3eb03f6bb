//! What one input makes a node send, and why: the facts of a single node
//! on which the safety of committing rests.

use crate::log::log::LogView;
use crate::message::{AddressView, EventView, MessageView};
use crate::node::laws::{Input, lemma_advance, lemma_commit_target};
use crate::node::model::{
    accepts,
    lemma_position,
    NodeView,
    position,
    quorum,
    reached,
    RoleView,
    timeout_in_window,
};
use crate::node::replication::cut;
use vstd::prelude::*;

verus! {

/// Whether a log whose last entry has index `last_index` and term
/// `last_term` is at least as up to date as `log`.
pub open spec fn up_to_date(last_index: nat, last_term: u64, log: LogView) -> bool {
    last_term > log.last_term() || (last_term == log.last_term() && last_index >= log.last_index())
}

/// Why a leader has sent the entries from a peer's next index on to the
/// peer `p`: it has appended an entry of its term, or the peer has told it
/// that it lacks what the leader has committed, or that it has rejected
/// entries.
pub open spec fn prompted(pre: NodeView, input: Input, post: NodeView, p: Seq<char>) -> bool {
    ||| {
        &&& input matches Input::Receive { msg, .. }
        &&& msg.event is ClientRequest
        &&& pre.role is Leader
        &&& post.log.entries.len() == pre.log.entries.len() + 1
        &&& post.log.entries.last().term == post.term
    }
    ||| {
        &&& input matches Input::Receive { msg, .. }
        &&& msg.term == post.term
        &&& msg.from == AddressView::Peer(p)
        &&& msg.event matches EventView::ConfirmLeader { has_committed, .. }
        &&& !has_committed
    }
    ||| {
        &&& input matches Input::Receive { msg, .. }
        &&& msg.term == post.term
        &&& msg.from == AddressView::Peer(p)
        &&& msg.event is RejectEntries
    }
}

/// Whether `m` is a message that the node has reason to send after the
/// input.
pub open spec fn answer(pre: NodeView, input: Input, post: NodeView, m: MessageView) -> bool {
    match m.event {
        EventView::SolicitVote { last_index, last_term } => {
            &&& post.role is Candidate
            &&& post.term == pre.term + 1
            &&& post.log.entries == pre.log.entries
            &&& last_index == post.log.last_index()
            &&& last_term == post.log.last_term()
        },
        EventView::Heartbeat { commit_index, commit_term } => {
            &&& post.role is Leader
            &&& commit_index == post.log.commit_index
            &&& commit_term == post.log.commit_term()
        },
        EventView::ConfirmLeader { commit_index, has_committed } => {
            &&& post.role is Follower
            &&& post.log.entries == pre.log.entries
            &&& input matches Input::Receive { msg, .. }
            &&& msg.term == post.term
            &&& msg.from is Peer
            &&& msg.event matches EventView::Heartbeat { commit_index: ci, commit_term: ct }
            &&& ci == commit_index
            &&& has_committed == pre.log.has(ci as int, ct)
        },
        EventView::ReplicateEntries { .. } => {
            &&& post.role is Leader
            &&& exists|q: int|
                #![trigger post.peers[q]]
                {
                    &&& 0 <= q < post.peers.len()
                    &&& m.to == AddressView::Peer(post.peers[q])
                    &&& m.event == cut(post.log, post.role->Leader_next_index[q])
                    &&& prompted(pre, input, post, post.peers[q])
                }
        },
        EventView::AcceptEntries { last_index } => {
            &&& post.role is Follower
            &&& last_index == post.log.last_index()
            &&& input matches Input::Receive { msg, .. }
            &&& msg.term == post.term
            &&& msg.from is Peer
            &&& msg.event matches EventView::ReplicateEntries { base_index, base_term, entries }
            &&& accepts(pre.log, base_index, base_term, entries)
        },
        EventView::RejectEntries => {
            &&& post.role is Follower
            &&& post.log.entries == pre.log.entries
            &&& input matches Input::Receive { msg, .. }
            &&& msg.term == post.term
            &&& msg.from is Peer
            &&& msg.event matches EventView::ReplicateEntries { base_index, base_term, entries }
            &&& !accepts(pre.log, base_index, base_term, entries)
        },
        _ => true,
    }
}

/// Whether every message after the first `from` of the outbox of `post`
/// is one that the node has reason to send after the input.
pub open spec fn answers(pre: NodeView, input: Input, post: NodeView, from: int) -> bool {
    forall|k: int|
        from <= k < post.outbox.len() ==> answer(pre, input, post, #[trigger] post.outbox[k])
}

/// Whether a vote that the node has given anew is one that it had reason
/// to give: its own, as it stood for election in a new term, or one for a
/// candidate of its term whose log, as the candidate told it, is at least
/// as up to date as its own. The log is as it was.
pub open spec fn votes(pre: NodeView, input: Input, post: NodeView) -> bool {
    post.voted_for() is Some && (pre.voted_for() is None || post.term > pre.term) ==> {
        let candidate = post.voted_for()->Some_0;
        &&& post.log.entries == pre.log.entries
        &&& {
            ||| post.role is Candidate && candidate == post.id && post.term == pre.term + 1
            ||| {
                &&& post.role is Follower
                &&& input matches Input::Receive { msg, .. }
                &&& msg.term == post.term
                &&& msg.from == AddressView::Peer(candidate)
                &&& msg.event matches EventView::SolicitVote { last_index, last_term }
                &&& up_to_date(last_index as nat, last_term, pre.log)
            }
        }
    }
}

/// Whether what a leader knows of the peer at position `q` is as the
/// input has left or made it: as it was; or, as the peer has accepted
/// entries, the greater of what it was and the index accepted, and the
/// index after it; or, as the peer has rejected entries, the next index
/// one back.
pub open spec fn tracks(pre: NodeView, input: Input, post: NodeView, q: int) -> bool {
    let before_next = pre.role->Leader_next_index[q];
    let before_match = pre.role->Leader_match_index[q];
    let next = post.role->Leader_next_index[q];
    let matched = post.role->Leader_match_index[q];
    ||| next == before_next && matched == before_match
    ||| {
        &&& input matches Input::Receive { msg, .. }
        &&& msg.term == post.term
        &&& msg.from == AddressView::Peer(post.peers[q])
        &&& msg.event matches EventView::AcceptEntries { last_index }
        &&& last_index < u64::MAX
        &&& next == last_index + 1
        &&& matched == if before_match >= last_index {
            before_match
        } else {
            last_index
        }
    }
    ||| {
        &&& input matches Input::Receive { msg, .. }
        &&& msg.term == post.term
        &&& msg.from == AddressView::Peer(post.peers[q])
        &&& msg.event is RejectEntries
        &&& matched == before_match
        &&& next == if before_next > 1 {
            (before_next - 1) as u64
        } else {
            1
        }
    }
}

/// What an input may do to the standing of a leader: a node that is
/// leader has just been elected, and then knows nothing of its peers and
/// has left its log and its commit index as they were; or it led before,
/// and then tracks its peers, and has moved its commit index only to an
/// entry of its term that a quorum has reached.
pub open spec fn leads(pre: NodeView, input: Input, post: NodeView) -> bool {
    post.role matches RoleView::Leader { next_index, match_index, .. } ==> {
        ||| {
            &&& pre.role is Candidate
            &&& post.term == pre.term
            &&& post.log == pre.log
            &&& forall|q: int|
                0 <= q < post.peers.len() ==> (#[trigger] next_index[q]) == post.log.last_index()
                    + 1 && match_index[q] == 0
        }
        ||| {
            &&& pre.role is Leader
            &&& post.term == pre.term
            &&& forall|q: int|
                #![trigger post.peers[q]]
                0 <= q < post.peers.len() ==> tracks(pre, input, post, q)
            &&& post.log.commit_index != pre.log.commit_index ==> {
                &&& pre.log.commit_index < post.log.commit_index <= post.log.last_index()
                &&& post.log.entries == pre.log.entries
                &&& reached(match_index, post.log.commit_index) + 1 >= quorum(post.peers.len())
                &&& post.log.term_at(post.log.commit_index as int) == post.term
            }
        }
    }
}

/// What an input may do to the commit index of a node that does not lead:
/// it moves it only to where a leader's heartbeat of its term says, and
/// only where its log holds the term that the heartbeat tells there.
pub open spec fn adopts(pre: NodeView, input: Input, post: NodeView) -> bool {
    !(post.role is Leader) && post.log.commit_index != pre.log.commit_index ==> {
        &&& pre.log.commit_index < post.log.commit_index <= post.log.last_index()
        &&& post.log.entries == pre.log.entries
        &&& input matches Input::Receive { msg, .. }
        &&& msg.term == post.term
        &&& msg.event matches EventView::Heartbeat { commit_index, commit_term }
        &&& commit_index == post.log.commit_index
        &&& pre.log.has(commit_index as int, commit_term)
    }
}

/// Sending entries to the peers sends what the leader has reason to send.
pub proof fn lemma_replicate_answers(pre: NodeView, input: Input, node: NodeView, i: int, from: int)
    requires
        0 <= i,
        node.well_formed(),
        node.role is Leader,
        0 <= from <= node.outbox.len(),
        answers(pre, input, node, from),
        forall|q: int|
            #![trigger node.peers[q]]
            i <= q < node.peers.len() ==> prompted(pre, input, node, node.peers[q]),
    ensures
        answers(pre, input, node.replicate_from(i), from),
        node.replicate_from(i) == (NodeView { outbox: node.replicate_from(i).outbox, ..node }),
    decreases node.peers.len() - i,
{
    if 0 <= i < node.peers.len() {
        let next = node.replicate(i);
        lemma_replicate_answer(pre, input, node, i, from);
        assert forall|q: int|
            #![trigger next.peers[q]]
            i + 1 <= q < next.peers.len() implies prompted(pre, input, next, next.peers[q]) by {
            assert(prompted(pre, input, node, node.peers[q]));
        }
        lemma_replicate_answers(pre, input, next, i + 1, from);
    }
}

/// Sending entries to one peer sends what the leader has reason to send.
pub proof fn lemma_replicate_answer(pre: NodeView, input: Input, node: NodeView, i: int, from: int)
    requires
        0 <= i < node.peers.len(),
        node.well_formed(),
        node.role is Leader,
        0 <= from <= node.outbox.len(),
        answers(pre, input, node, from),
        prompted(pre, input, node, node.peers[i]),
    ensures
        answers(pre, input, node.replicate(i), from),
        node.replicate(i).well_formed(),
        node.replicate(i) == (NodeView { outbox: node.replicate(i).outbox, ..node }),
{
    let after = node.replicate(i);
    assert forall|k: int| from <= k < after.outbox.len() implies answer(
        pre,
        input,
        after,
        #[trigger] after.outbox[k],
    ) by {
        if k < node.outbox.len() {
            assert(after.outbox[k] == node.outbox[k]);
            assert(answer(pre, input, node, node.outbox[k]));
            let m = node.outbox[k];
            if m.event is ReplicateEntries {
                let q = choose|q: int|
                    #![trigger node.peers[q]]
                    {
                        &&& 0 <= q < node.peers.len()
                        &&& m.to == AddressView::Peer(node.peers[q])
                        &&& m.event == cut(node.log, node.role->Leader_next_index[q])
                        &&& prompted(pre, input, node, node.peers[q])
                    };
                assert(0 <= q < after.peers.len() && m.to == AddressView::Peer(after.peers[q])
                    && m.event == cut(after.log, after.role->Leader_next_index[q]) && prompted(
                    pre,
                    input,
                    after,
                    after.peers[q],
                ));
            }
        } else {
            let m = after.outbox[k];
            assert(0 <= i < after.peers.len() && m.to == AddressView::Peer(after.peers[i])
                && m.event == cut(after.log, after.role->Leader_next_index[i]) && prompted(
                pre,
                input,
                after,
                after.peers[i],
            ));
        }
    }
}

/// A message that a follower handles makes it send what it has reason to
/// send, vote as it has reason to, and commit as a heartbeat says.
pub proof fn lemma_follower_effects(origin: NodeView, pre: NodeView, msg: MessageView, timeout: u64)
    requires
        pre.well_formed(),
        pre.role is Follower,
        msg.term == pre.term || msg.event.from_client(),
        pre.step_follower(msg) is Ok,
        origin.log.entries == pre.log.entries,
        origin.log.commit_index == pre.log.commit_index,
        origin.term <= pre.term,
        origin.term < pre.term ==> pre.voted_for() is None,
        origin.term == pre.term ==> pre.voted_for() == origin.voted_for(),
    ensures
        answers(
            origin,
            Input::Receive { msg, timeout },
            pre.step_follower(msg)->Ok_0,
            pre.outbox.len() as int,
        ),
        votes(origin, Input::Receive { msg, timeout }, pre.step_follower(msg)->Ok_0),
        adopts(origin, Input::Receive { msg, timeout }, pre.step_follower(msg)->Ok_0),
        pre.step_follower(msg)->Ok_0.role is Follower,
{
    let post = pre.step_follower(msg)->Ok_0;
    let input = Input::Receive { msg, timeout };
    match (msg.event, msg.from) {
        (EventView::ReplicateEntries { base_index, base_term, entries }, AddressView::Peer(p)) => {
            crate::node::laws::lemma_step_follower(pre, msg);
            if accepts(pre.log, base_index, base_term, entries) {
                crate::node::laws::lemma_splice(pre.log, base_index, base_term, entries);
                crate::node::replication::lemma_agreeing_same(
                    pre.log,
                    origin.log,
                    base_index,
                    entries,
                );
                assert(accepts(origin.log, base_index, base_term, entries));
            } else {
                assert(!accepts(origin.log, base_index, base_term, entries));
            }
        },
        (EventView::Heartbeat { commit_index, commit_term }, AddressView::Peer(p)) => {
            assert(pre.log.has(commit_index as int, commit_term) == origin.log.has(
                commit_index as int,
                commit_term,
            ));
        },
        _ => {},
    }
}

/// One input makes a node send what it has reason to send, vote as it has
/// reason to, lead as an election and its peers allow, and commit as its
/// standing allows.
pub proof fn lemma_effects(pre: NodeView, input: Input)
    requires
        pre.well_formed(),
        input.in_window(),
        pre.advance(input) is Ok,
    ensures
        answers(pre, input, pre.advance(input)->Ok_0, pre.outbox.len() as int),
        votes(pre, input, pre.advance(input)->Ok_0),
        leads(pre, input, pre.advance(input)->Ok_0),
        adopts(pre, input, pre.advance(input)->Ok_0),
{
    let post = pre.advance(input)->Ok_0;
    lemma_advance(pre, input);
    match input {
        Input::Tick { timeout } => {},
        Input::Receive { msg, timeout } => {
            if msg.event.from_client() {
                lemma_in_role_effects(pre, msg, timeout);
            } else if msg.term > pre.term {
                let follower = pre.demote(msg, timeout)->Ok_0;
                lemma_follower_effects(pre, follower, msg, timeout);
            } else if msg.term < pre.term {
            } else {
                lemma_in_role_effects(pre, msg, timeout);
            }
        },
    }
}

/// The same of a message that goes to the node's role.
pub proof fn lemma_in_role_effects(pre: NodeView, msg: MessageView, timeout: u64)
    requires
        pre.well_formed(),
        timeout_in_window(timeout),
        msg.term == pre.term || msg.event.from_client(),
        pre.step_in_role(msg, timeout) is Ok,
    ensures
        answers(
            pre,
            Input::Receive { msg, timeout },
            pre.step_in_role(msg, timeout)->Ok_0,
            pre.outbox.len() as int,
        ),
        votes(pre, Input::Receive { msg, timeout }, pre.step_in_role(msg, timeout)->Ok_0),
        leads(pre, Input::Receive { msg, timeout }, pre.step_in_role(msg, timeout)->Ok_0),
        adopts(pre, Input::Receive { msg, timeout }, pre.step_in_role(msg, timeout)->Ok_0),
{
    let input = Input::Receive { msg, timeout };
    let post = pre.step_in_role(msg, timeout)->Ok_0;
    match pre.role {
        RoleView::Follower { .. } => {
            lemma_follower_effects(pre, pre, msg, timeout);
        },
        RoleView::Candidate { ticks, election_timeout, votes } => {
            match (msg.event, msg.from) {
                (EventView::Heartbeat { .. }, AddressView::Peer(p)) => {
                    let follower = pre.follow(Some(p), Some(pre.id), timeout);
                    lemma_follower_effects(pre, follower, msg, timeout);
                },
                (EventView::ReplicateEntries { .. }, AddressView::Peer(p)) => {
                    let follower = pre.follow(Some(p), Some(pre.id), timeout);
                    lemma_follower_effects(pre, follower, msg, timeout);
                },
                (EventView::GrantVote, AddressView::Peer(p)) => {},
                _ => {},
            }
        },
        RoleView::Leader { heartbeat_ticks, next_index, match_index } => {
            match (msg.event, msg.from) {
                (EventView::ClientRequest { id, payload }, _) => {
                    let appended = NodeView { log: pre.log.append(pre.term, Some(payload)), ..pre };
                    assert(appended.well_formed());
                    assert(answers(pre, input, appended, pre.outbox.len() as int));
                    assert forall|q: int|
                        #![trigger appended.peers[q]]
                        0 <= q < appended.peers.len() implies prompted(
                        pre,
                        input,
                        appended,
                        appended.peers[q],
                    ) by {}
                    lemma_replicate_answers(pre, input, appended, 0, pre.outbox.len() as int);
                    assert forall|q: int|
                        #![trigger post.peers[q]]
                        0 <= q < post.peers.len() implies tracks(pre, input, post, q) by {}
                },
                (EventView::ConfirmLeader { commit_index, has_committed }, AddressView::Peer(p)) => {
                    lemma_position(pre.peers, p);
                    match position(pre.peers, p) {
                        Some(i) => {
                            if !has_committed {
                                let noted = NodeView { instructions: post.instructions, ..pre };
                                assert(answers(pre, input, noted, pre.outbox.len() as int));
                                assert(prompted(pre, input, noted, noted.peers[i]));
                                lemma_replicate_answer(
                                    pre,
                                    input,
                                    noted,
                                    i,
                                    pre.outbox.len() as int,
                                );
                            }
                        },
                        None => {},
                    }
                    assert forall|q: int|
                        #![trigger post.peers[q]]
                        0 <= q < post.peers.len() implies tracks(pre, input, post, q) by {}
                },
                (EventView::AcceptEntries { last_index }, AddressView::Peer(p)) => {
                    lemma_position(pre.peers, p);
                    match position(pre.peers, p) {
                        Some(i) => {
                            if last_index < u64::MAX {
                                let moved = NodeView {
                                    log: pre.log,
                                    instructions: pre.instructions,
                                    ..post
                                };
                                lemma_commit_target(moved, moved.log.last_index());
                                assert(post.outbox == pre.outbox);
                                assert forall|q: int|
                                    #![trigger post.peers[q]]
                                    0 <= q < post.peers.len() implies tracks(
                                    pre,
                                    input,
                                    post,
                                    q,
                                ) by {
                                    if q != i {
                                    }
                                }
                            }
                        },
                        None => {},
                    }
                    assert forall|q: int|
                        #![trigger post.peers[q]]
                        0 <= q < post.peers.len() implies tracks(pre, input, post, q) by {}
                },
                (EventView::RejectEntries, AddressView::Peer(p)) => {
                    lemma_position(pre.peers, p);
                    match position(pre.peers, p) {
                        Some(i) => {
                            let stepped = NodeView { outbox: pre.outbox, ..post };
                            assert(stepped.well_formed());
                            assert(answers(pre, input, stepped, pre.outbox.len() as int));
                            assert(prompted(pre, input, stepped, stepped.peers[i]));
                            lemma_replicate_answer(
                                pre,
                                input,
                                stepped,
                                i,
                                pre.outbox.len() as int,
                            );
                        },
                        None => {},
                    }
                    assert forall|q: int|
                        #![trigger post.peers[q]]
                        0 <= q < post.peers.len() implies tracks(pre, input, post, q) by {}
                },
                _ => {
                    assert forall|q: int|
                        #![trigger post.peers[q]]
                        0 <= q < post.peers.len() implies tracks(pre, input, post, q) by {}
                },
            }
        },
    }
}

} // verus!

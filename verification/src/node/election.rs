//! What one input may do to a node's vote, its tally and its outbox: the
//! facts of a single node on which the safety of elections rests.

use crate::message::{AddressView, EventView, MessageView};
use crate::node::laws::{Input, lemma_advance};
use crate::node::model::{lemma_position, NodeView, quorum, RoleView, timeout_in_window};
use vstd::prelude::*;

verus! {

/// Whether `m` is a message that the node `post` may have put out: from
/// the local node, in its term, and, where it grants a vote, to the peer
/// that the node has voted for.
pub open spec fn put_out_by(m: MessageView, post: NodeView) -> bool {
    &&& m.from is Local
    &&& m.term == post.term
    &&& m.event is GrantVote ==> m.to is Peer && post.voted_for() == Some(m.to->Peer_0)
}

/// Whether the outbox of `post` is that of `pre` with messages after it
/// that `post` may have put out.
pub open spec fn puts_out(pre: NodeView, post: NodeView) -> bool {
    &&& pre.outbox.len() <= post.outbox.len()
    &&& forall|k: int| 0 <= k < pre.outbox.len() ==> post.outbox[k] == pre.outbox[k]
    &&& forall|k: int|
        pre.outbox.len() <= k < post.outbox.len() ==> put_out_by(#[trigger] post.outbox[k], post)
}

/// Whether the input is a vote that the peer `p` grants in the term of
/// the node `pre`.
pub open spec fn grants_vote(input: Input, pre: NodeView, p: Seq<char>) -> bool {
    input matches Input::Receive { msg, .. } && msg.event is GrantVote && msg.from
        == AddressView::Peer(p) && msg.term == pre.term
}

/// Whether `after` holds the voters of `before` and at most one more, the
/// peer whose vote the input grants.
pub open spec fn counts(before: Seq<Seq<char>>, after: Seq<Seq<char>>, input: Input, pre: NodeView) -> bool {
    ||| after == before
    ||| exists|p: Seq<char>| #[trigger] grants_vote(input, pre, p) && after == before.push(p)
}

/// What one input may do to a node's tally and standing:
/// a candidate's tally is that of the same election with at most the
/// vote that the input grants, or holds the candidate alone in a new
/// term; a leader was leader of the term before, or was a candidate of the
/// term whose tally, with at most the vote that the input grants, is a
/// quorum.
pub open spec fn elects(pre: NodeView, input: Input, post: NodeView) -> bool {
    &&& post.role matches RoleView::Candidate { votes, .. } ==> {
        ||| pre.role is Candidate && post.term == pre.term && counts(
            pre.role->Candidate_votes,
            votes,
            input,
            pre,
        )
        ||| post.term > pre.term && votes == seq![post.id]
    }
    &&& post.role is Leader ==> {
        ||| pre.role is Leader && post.term == pre.term
        ||| pre.role is Candidate && post.term == pre.term && exists|tally: Seq<Seq<char>>|
            #![trigger tally.no_duplicates()]
            {
                &&& counts(pre.role->Candidate_votes, tally, input, pre)
                &&& tally.no_duplicates()
                &&& tally.len() >= quorum(pre.peers.len())
            }
    }
}

/// Sending entries to the peers puts out only what replicates entries.
pub proof fn lemma_replicate_puts_out(node: NodeView, i: int)
    requires
        0 <= i,
    ensures
        puts_out(node, node.replicate_from(i)),
        node.replicate_from(i) == (NodeView { outbox: node.replicate_from(i).outbox, ..node }),
    decreases node.peers.len() - i,
{
    if 0 <= i < node.peers.len() {
        let next = node.replicate(i);
        lemma_replicate_puts_out(next, i + 1);
        let last = node.replicate_from(i);
        assert forall|k: int| node.outbox.len() <= k < last.outbox.len() implies put_out_by(
            #[trigger] last.outbox[k],
            last,
        ) by {
            if k < next.outbox.len() {
                assert(last.outbox[k] == next.outbox[k]);
            }
        }
    }
}

/// A message that a follower handles moves its vote, its tally and its
/// outbox as an election allows.
pub proof fn lemma_follower_elects(pre: NodeView, msg: MessageView)
    requires
        pre.well_formed(),
        pre.role is Follower,
        pre.step_follower(msg) is Ok,
    ensures
        puts_out(pre, pre.step_follower(msg)->Ok_0),
        pre.step_follower(msg)->Ok_0.role is Follower,
        pre.step_follower(msg)->Ok_0.term == pre.term,
{
}

/// One input moves a node's vote, its tally and its outbox as an election
/// allows.
pub proof fn lemma_elects(pre: NodeView, input: Input)
    requires
        pre.well_formed(),
        input.in_window(),
        pre.advance(input) is Ok,
    ensures
        puts_out(pre, pre.advance(input)->Ok_0),
        elects(pre, input, pre.advance(input)->Ok_0),
{
    let post = pre.advance(input)->Ok_0;
    lemma_advance(pre, input);
    match input {
        Input::Tick { timeout } => {
            assert(puts_out(pre, post));
            assert(elects(pre, input, post));
        },
        Input::Receive { msg, timeout } => {
            if msg.event.from_client() {
                lemma_in_role_elects(pre, msg, timeout);
            } else if msg.term > pre.term {
                let follower = pre.demote(msg, timeout)->Ok_0;
                lemma_follower_elects(follower, msg);
                assert(puts_out(pre, post));
            } else if msg.term < pre.term {
            } else {
                lemma_in_role_elects(pre, msg, timeout);
            }
        },
    }
}

/// The same of a message that goes to the node's role.
pub proof fn lemma_in_role_elects(pre: NodeView, msg: MessageView, timeout: u64)
    requires
        pre.well_formed(),
        timeout_in_window(timeout),
        msg.term == pre.term || msg.event.from_client(),
        pre.step_in_role(msg, timeout) is Ok,
    ensures
        puts_out(pre, pre.step_in_role(msg, timeout)->Ok_0),
        elects(pre, Input::Receive { msg, timeout }, pre.step_in_role(msg, timeout)->Ok_0),
{
    let input = Input::Receive { msg, timeout };
    let post = pre.step_in_role(msg, timeout)->Ok_0;
    match pre.role {
        RoleView::Follower { .. } => {
            lemma_follower_elects(pre, msg);
        },
        RoleView::Candidate { ticks, election_timeout, votes } => {
            match (msg.event, msg.from) {
                (EventView::GrantVote, AddressView::Peer(p)) => {
                    let counted = if votes.contains(p) {
                        votes
                    } else {
                        votes.push(p)
                    };
                    assert(msg.term == pre.term);
                    assert(grants_vote(input, pre, p));
                    assert(counts(votes, counted, input, pre));
                    assert(counted.no_duplicates());
                    assert(puts_out(pre, post));
                },
                (EventView::Heartbeat { .. }, AddressView::Peer(p)) => {
                    lemma_follower_elects(pre.follow(Some(p), Some(pre.id), timeout), msg);
                },
                (EventView::ReplicateEntries { .. }, AddressView::Peer(p)) => {
                    lemma_follower_elects(pre.follow(Some(p), Some(pre.id), timeout), msg);
                },
                _ => {
                    assert(counts(votes, votes, input, pre));
                },
            }
        },
        RoleView::Leader { .. } => {
            match (msg.event, msg.from) {
                (EventView::ClientRequest { id, payload }, _) => {
                    let appended = NodeView { log: pre.log.append(pre.term, Some(payload)), ..pre };
                    lemma_replicate_puts_out(appended, 0);
                },
                (EventView::ConfirmLeader { .. }, AddressView::Peer(p)) => {
                    lemma_position(pre.peers, p);
                },
                (EventView::AcceptEntries { .. }, AddressView::Peer(p)) => {
                    lemma_position(pre.peers, p);
                },
                (EventView::RejectEntries, AddressView::Peer(p)) => {
                    lemma_position(pre.peers, p);
                },
                _ => {},
            }
        },
    }
}

} // verus!

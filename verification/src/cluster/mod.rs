//! A cluster as mathematics: the nodes, the messages that have left them,
//! a record of what has happened, and what may happen next. On it the
//! safety of the protocol is proved; this file proves that no term has two
//! leaders.
//!
//! The model takes a node's log for durable: a node that starts again
//! starts from its log, with the term and the vote that it has saved. A
//! message may be lost, delayed, repeated or overtaken: whatever has left
//! a node may reach the node it is for at any time, any number of times.
//! A node whose step is refused stops for good. What the nodes do is what
//! `NodeView::tick`, `NodeView::step` and `NodeView::start` say, which is
//! what the executable nodes are proved to do.

pub mod acks;
pub mod lineage;
pub mod matching;
pub mod ordering;
pub mod safety;
pub mod tally;

use crate::log::log::EntryView;
use crate::message::{AddressView, MessageView};
use crate::node::election::{counts, grants_vote, lemma_elects, put_out_by};
use crate::node::laws::{Input, lemma_advance};
use crate::node::model::{NodeView, quorum, RoleView, timeout_in_window};
use crate::transport::stamped;
use vstd::prelude::*;

verus! {

/// What may happen next in a cluster: the node at a position takes an
/// input, or starts again from its log.
pub enum Action {
    Advance { node: int, input: Input },
    Restart { node: int, applied_index: u64, timeout: u64 },
}

/// A cluster: its nodes, every message that has left one of them, and a
/// record of what has happened in it.
pub struct Cluster {
    pub nodes: Seq<NodeView>,
    pub sent: Set<MessageView>,
    /// Every vote given, by voter and term: the candidate it went to.
    pub ballots: Map<(Seq<char>, u64), Seq<char>>,
    /// Every node that has been leader, with the term it led.
    pub elected: Set<(u64, Seq<char>)>,
    /// For every vote given, by voter and term: the index and the term of
    /// the last entry of the voter's log when it gave the vote.
    pub ballot_logs: Map<(Seq<char>, u64), (nat, u64)>,
    /// The votes given, by voter and term, while the term had no leader.
    pub open_ballots: Set<(Seq<char>, u64)>,
    /// For every term that has had a leader: the entries of the leader's
    /// log when it was elected.
    pub won_with: Map<u64, Seq<EntryView>>,
    /// Every holding of an entry of a node's own term: the node, the term,
    /// and the index of the entry.
    pub held: Set<(Seq<char>, u64, nat)>,
    /// Every commit index that a node has reached, with the term of the
    /// entry there.
    pub committed: Set<(nat, u64)>,
}

/// A node with nothing left to send or to hand to the driver.
pub open spec fn cleared(node: NodeView) -> NodeView {
    NodeView { outbox: Seq::empty(), instructions: Seq::empty(), ..node }
}

impl Cluster {
    /// The ids of the nodes.
    pub open spec fn ids(self) -> Seq<Seq<char>> {
        Seq::new(self.nodes.len(), |i: int| self.nodes[i].id)
    }

    /// Whether every node has an id of its own and has all the others, and
    /// no one else, for its peers, each once.
    pub open spec fn configured(self) -> bool {
        &&& self.ids().no_duplicates()
        &&& forall|i: int|
            0 <= i < self.nodes.len() ==> {
                let node = #[trigger] self.nodes[i];
                &&& node.peers.no_duplicates()
                &&& node.peers.len() + 1 == self.nodes.len()
                &&& forall|k: int|
                    0 <= k < node.peers.len() ==> self.ids().contains(#[trigger] node.peers[k])
                        && node.peers[k] != node.id
            }
    }

    /// Whether the cluster is one that has just been started: the nodes
    /// are followers of term 0 with empty logs, and nothing has happened.
    pub open spec fn initial(self) -> bool {
        &&& self.configured()
        &&& forall|i: int|
            0 <= i < self.nodes.len() ==> {
                let node = #[trigger] self.nodes[i];
                &&& node.well_formed()
                &&& node.role is Follower
                &&& node.term == 0
                &&& node.voted_for() is None
                &&& node.log.entries.len() == 0
                &&& node.outbox.len() == 0
            }
        &&& self.sent == Set::<MessageView>::empty()
        &&& self.ballots == Map::<(Seq<char>, u64), Seq<char>>::empty()
        &&& self.elected == Set::<(u64, Seq<char>)>::empty()
        &&& self.ballot_logs == Map::<(Seq<char>, u64), (nat, u64)>::empty()
        &&& self.open_ballots == Set::<(Seq<char>, u64)>::empty()
        &&& self.won_with == Map::<u64, Seq<EntryView>>::empty()
        &&& self.held == Set::<(Seq<char>, u64, nat)>::empty()
        &&& self.committed == Set::<(nat, u64)>::empty()
    }

    /// Whether the message may reach the node at position `i`: it has left
    /// a node for this one or for all peers, or it is a client's request.
    pub open spec fn deliverable(self, i: int, msg: MessageView) -> bool {
        ||| msg.event is ClientRequest
        ||| self.sent.contains(msg) && (msg.to == AddressView::Peer(self.nodes[i].id) || msg.to
            is Peers)
    }

    /// Whether the action may happen: it is of a node of the cluster, with
    /// an election timeout of the window, a message that it is given may
    /// reach it, and the node does not refuse it.
    pub open spec fn enabled(self, action: Action) -> bool {
        match action {
            Action::Advance { node, input } => {
                &&& 0 <= node < self.nodes.len()
                &&& input.in_window()
                &&& input matches Input::Receive { msg, .. } ==> self.deliverable(node, msg)
                &&& self.nodes[node].advance(input) is Ok
            },
            Action::Restart { node, applied_index, timeout } => {
                &&& 0 <= node < self.nodes.len()
                &&& timeout_in_window(timeout)
                &&& applied_index <= self.nodes[node].log.commit_index
            },
        }
    }

    /// The messages of `node`'s outbox as they leave it.
    pub open spec fn leaving(node: NodeView) -> Set<MessageView> {
        Set::new(
            |m: MessageView|
                exists|k: int|
                    0 <= k < node.outbox.len() && m == stamped(#[trigger] node.outbox[k], node.id),
        )
    }

    /// The cluster after the node at position `i` has become `post`: what
    /// it has put out has left it, its vote is on record, and so is that
    /// it leads, where it does.
    pub open spec fn settle(self, i: int, post: NodeView) -> Cluster {
        let votes_anew = post.voted_for() is Some && !self.ballots.contains_key(
            (post.id, post.term),
        );
        Cluster {
            nodes: self.nodes.update(i, cleared(post)),
            sent: self.sent.union(Self::leaving(post)),
            ballots: match post.voted_for() {
                Some(candidate) => self.ballots.insert((post.id, post.term), candidate),
                None => self.ballots,
            },
            elected: if post.role is Leader {
                self.elected.insert((post.term, post.id))
            } else {
                self.elected
            },
            ballot_logs: if votes_anew {
                self.ballot_logs.insert(
                    (post.id, post.term),
                    (post.log.last_index(), post.log.last_term()),
                )
            } else {
                self.ballot_logs
            },
            open_ballots: if votes_anew && !self.won_with.contains_key(post.term) {
                self.open_ballots.insert((post.id, post.term))
            } else {
                self.open_ballots
            },
            won_with: if post.role is Leader && !self.won_with.contains_key(post.term) {
                self.won_with.insert(post.term, post.log.entries)
            } else {
                self.won_with
            },
            held: self.held.union(Self::holding(post)),
            committed: if post.log.commit_index >= 1 {
                self.committed.insert((post.log.commit_index, post.log.commit_term()))
            } else {
                self.committed
            },
        }
    }

    /// What `node` holds of entries of its own term: itself, its term,
    /// and the index of each such entry.
    pub open spec fn holding(node: NodeView) -> Set<(Seq<char>, u64, nat)> {
        Set::new(
            |h: (Seq<char>, u64, nat)|
                h.0 == node.id && h.1 == node.term && 1 <= h.2 <= node.log.last_index()
                    && node.log.term_at(h.2 as int) == node.term,
        )
    }

    /// The cluster after an action; as it was where the action may not
    /// happen.
    pub open spec fn apply(self, action: Action) -> Cluster {
        if !self.enabled(action) {
            self
        } else {
            match action {
                Action::Advance { node, input } => self.settle(
                    node,
                    self.nodes[node].advance(input)->Ok_0,
                ),
                Action::Restart { node, applied_index, timeout } => {
                    let old = self.nodes[node];
                    self.settle(
                        node,
                        NodeView::start(old.id, old.peers, old.log, applied_index, timeout)->Ok_0,
                    )
                },
            }
        }
    }

    /// The cluster after the actions, taken in order.
    pub open spec fn run(self, actions: Seq<Action>) -> Cluster
        decreases actions.len(),
    {
        if actions.len() == 0 {
            self
        } else {
            self.apply(actions[0]).run(actions.drop_first())
        }
    }

    /// Whether `voter` has voted for `candidate` in `term`.
    pub open spec fn voted(self, voter: Seq<char>, term: u64, candidate: Seq<char>) -> bool {
        self.ballots.contains_key((voter, term)) && self.ballots[(voter, term)] == candidate
    }

    /// Whether all of `tally` have voted for `candidate` in `term`.
    pub open spec fn all_voted(self, tally: Seq<Seq<char>>, term: u64, candidate: Seq<char>) -> bool {
        forall|k: int| 0 <= k < tally.len() ==> self.voted(#[trigger] tally[k], term, candidate)
    }

    /// Whether a quorum of the cluster has voted for `candidate` in `term`.
    pub open spec fn won(self, term: u64, candidate: Seq<char>) -> bool {
        exists|tally: Seq<Seq<char>>|
            #![trigger tally.no_duplicates()]
            {
                &&& tally.no_duplicates()
                &&& tally.len() >= quorum((self.nodes.len() - 1) as nat)
                &&& self.all_voted(tally, term, candidate)
            }
    }

    /// Whether the record of votes is that of the node at position `i`:
    /// its vote of its term is on record, if it has given one, and no vote
    /// of a later term is.
    pub open spec fn on_record(self, i: int) -> bool {
        let node = self.nodes[i];
        &&& node.voted_for() matches Some(candidate) ==> self.voted(node.id, node.term, candidate)
        &&& node.voted_for() is None ==> !self.ballots.contains_key((node.id, node.term))
        &&& forall|term: u64|
            term > node.term ==> !(#[trigger] self.ballots.contains_key((node.id, term)))
    }

    /// Whether the node at position `i` stands as the record of votes
    /// allows: all of a candidate's tally have voted for it in its term,
    /// and a leader is on record as one.
    pub open spec fn stands(self, i: int) -> bool {
        let node = self.nodes[i];
        &&& node.role matches RoleView::Candidate { votes, .. } ==> self.all_voted(
            votes,
            node.term,
            node.id,
        )
        &&& node.role is Leader ==> self.elected.contains((node.term, node.id))
    }

    /// What holds of every cluster that was started and left to run.
    pub open spec fn safe(self) -> bool {
        &&& self.configured()
        &&& forall|i: int|
            0 <= i < self.nodes.len() ==> (#[trigger] self.nodes[i]).well_formed()
                && self.nodes[i].outbox.len() == 0
        &&& forall|i: int| 0 <= i < self.nodes.len() ==> #[trigger] self.on_record(i)
        &&& forall|i: int| 0 <= i < self.nodes.len() ==> #[trigger] self.stands(i)
        &&& forall|voter: Seq<char>, term: u64| #[trigger]
            self.ballots.contains_key((voter, term)) ==> self.ids().contains(voter)
        &&& forall|m: MessageView|
            #[trigger] self.sent.contains(m) && m.event is GrantVote ==> m.from is Peer && m.to
                is Peer && self.voted(m.from->Peer_0, m.term, m.to->Peer_0)
        &&& forall|term: u64, leader: Seq<char>| #[trigger]
            self.elected.contains((term, leader)) ==> self.won(term, leader)
    }
}

/// Two lists of members of a cluster, each without a repeated member, that
/// hold more members together than the cluster has, share a member.
pub proof fn lemma_tallies_meet(ids: Seq<Seq<char>>, a: Seq<Seq<char>>, b: Seq<Seq<char>>)
    requires
        a.no_duplicates(),
        b.no_duplicates(),
        forall|k: int| 0 <= k < a.len() ==> ids.contains(#[trigger] a[k]),
        forall|k: int| 0 <= k < b.len() ==> ids.contains(#[trigger] b[k]),
        a.len() + b.len() > ids.len(),
    ensures
        exists|i: int, j: int| 0 <= i < a.len() && 0 <= j < b.len() && a[i] == b[j],
{
    if !(exists|i: int, j: int| 0 <= i < a.len() && 0 <= j < b.len() && a[i] == b[j]) {
        let both = a + b;
        assert forall|i: int, j: int| 0 <= i < both.len() && 0 <= j < both.len() && i != j implies both[i]
            != both[j] by {
            if i < a.len() && j < a.len() {
            } else if i >= a.len() && j >= a.len() {
                assert(both[i] == b[i - a.len()]);
                assert(both[j] == b[j - a.len()]);
            } else if i < a.len() {
                assert(both[j] == b[j - a.len()]);
            } else {
                assert(both[i] == b[i - a.len()]);
            }
        }
        assert(both.no_duplicates());
        both.unique_seq_to_set();
        vstd::seq_lib::seq_to_set_is_finite(ids);
        assert(both.to_set().subset_of(ids.to_set())) by {
            assert forall|x: Seq<char>| both.to_set().contains(x) implies ids.to_set().contains(
                x,
            ) by {
                let k = choose|k: int| 0 <= k < both.len() && both[k] == x;
                if k < a.len() {
                    assert(both[k] == a[k]);
                } else {
                    assert(both[k] == b[k - a.len()]);
                }
            }
        }
        vstd::set_lib::lemma_len_subset(both.to_set(), ids.to_set());
        ids.lemma_cardinality_of_set();
        assert(false);
    }
}

/// A vote on record stays on record when a node of a safe cluster
/// becomes `post`, a state to which one input or a new start has led it.
pub proof fn lemma_votes_stay(c: Cluster, i: int, post: NodeView)
    requires
        c.safe(),
        0 <= i < c.nodes.len(),
        post.id == c.nodes[i].id,
        c.nodes[i].term <= post.term,
        post.term == c.nodes[i].term && c.nodes[i].voted_for() is Some ==> post.voted_for()
            == c.nodes[i].voted_for(),
    ensures
        forall|voter: Seq<char>, term: u64, candidate: Seq<char>|
            c.voted(voter, term, candidate) ==> #[trigger] c.settle(i, post).voted(
                voter,
                term,
                candidate,
            ),
        forall|tally: Seq<Seq<char>>, term: u64, candidate: Seq<char>|
            c.all_voted(tally, term, candidate) ==> #[trigger] c.settle(i, post).all_voted(
                tally,
                term,
                candidate,
            ),
        forall|term: u64, candidate: Seq<char>|
            c.won(term, candidate) ==> #[trigger] c.settle(i, post).won(term, candidate),
        post.voted_for() matches Some(candidate) ==> c.settle(i, post).voted(
            post.id,
            post.term,
            candidate,
        ),
        forall|voter: Seq<char>, term: u64| #[trigger]
            c.settle(i, post).ballots.contains_key((voter, term)) ==> c.ballots.contains_key(
                (voter, term),
            ) || (voter == post.id && term == post.term && post.voted_for() is Some),
{
    let d = c.settle(i, post);
    let pre = c.nodes[i];
    assert(c.on_record(i));
    assert forall|voter: Seq<char>, term: u64, candidate: Seq<char>|
        c.voted(voter, term, candidate) implies #[trigger] d.voted(voter, term, candidate) by {
        if post.voted_for() is Some && voter == post.id && term == post.term {
            if post.term > pre.term {
                assert(!c.ballots.contains_key((pre.id, term)));
            }
        }
    }
    assert forall|tally: Seq<Seq<char>>, term: u64, candidate: Seq<char>|
        c.all_voted(tally, term, candidate) implies #[trigger] d.all_voted(
        tally,
        term,
        candidate,
    ) by {
        assert forall|k: int| 0 <= k < tally.len() implies d.voted(
            #[trigger] tally[k],
            term,
            candidate,
        ) by {
            assert(c.voted(tally[k], term, candidate));
        }
    }
    assert(d.nodes.len() == c.nodes.len());
    assert forall|term: u64, candidate: Seq<char>| c.won(term, candidate) implies #[trigger] d.won(
        term,
        candidate,
    ) by {
        let tally = choose|tally: Seq<Seq<char>>|
            #![trigger tally.no_duplicates()]
            {
                &&& tally.no_duplicates()
                &&& tally.len() >= quorum((c.nodes.len() - 1) as nat)
                &&& c.all_voted(tally, term, candidate)
            };
        assert(d.all_voted(tally, term, candidate));
        assert(tally.no_duplicates());
    }
}

/// The configuration of a cluster stays as it is when a node becomes
/// a state with the same id and the same peers.
pub proof fn lemma_configured_stays(c: Cluster, i: int, post: NodeView)
    requires
        c.safe(),
        0 <= i < c.nodes.len(),
        post.id == c.nodes[i].id,
        post.peers == c.nodes[i].peers,
    ensures
        c.settle(i, post).ids() == c.ids(),
        c.settle(i, post).configured(),
        c.settle(i, post).nodes.len() == c.nodes.len(),
        forall|j: int|
            0 <= j < c.nodes.len() && j != i ==> #[trigger] c.settle(i, post).nodes[j]
                == c.nodes[j] && c.nodes[j].id != post.id,
        c.settle(i, post).nodes[i] == cleared(post),
{
    let d = c.settle(i, post);
    assert(d.ids() =~= c.ids());
    assert forall|j: int| 0 <= j < c.nodes.len() && j != i implies c.nodes[j].id != post.id by {
        assert(c.ids()[j] == c.nodes[j].id);
        assert(c.ids()[i] == c.nodes[i].id);
    }
    assert forall|j: int| 0 <= j < d.nodes.len() implies {
        let node = #[trigger] d.nodes[j];
        &&& node.peers.no_duplicates()
        &&& node.peers.len() + 1 == d.nodes.len()
        &&& forall|k: int|
            0 <= k < node.peers.len() ==> d.ids().contains(#[trigger] node.peers[k])
                && node.peers[k] != node.id
    } by {
        let old = c.nodes[j];
        assert(old.peers == d.nodes[j].peers);
        assert(old.id == d.nodes[j].id);
    }
}

/// A safe cluster stays safe when one of its nodes takes an input.
pub proof fn lemma_advance_safe(c: Cluster, i: int, input: Input)
    requires
        c.safe(),
        c.enabled(Action::Advance { node: i, input }),
    ensures
        c.apply(Action::Advance { node: i, input }).safe(),
{
    let pre = c.nodes[i];
    let post = pre.advance(input)->Ok_0;
    let d = c.settle(i, post);
    assert(d == c.apply(Action::Advance { node: i, input }));
    lemma_advance(pre, input);
    lemma_elects(pre, input);
    lemma_configured_stays(c, i, post);
    lemma_votes_stay(c, i, post);
    assert(c.on_record(i));
    assert(c.stands(i));
    assert(c.ids()[i] == pre.id);
    assert(c.ids().contains(pre.id));

    // What the input grants is a vote on record.
    assert forall|p: Seq<char>| #[trigger] grants_vote(input, pre, p) implies d.voted(
        p,
        pre.term,
        pre.id,
    ) by {
        let msg = input->Receive_msg;
        assert(c.deliverable(i, msg));
        assert(c.sent.contains(msg));
        assert(c.voted(p, pre.term, pre.id));
    }
    assert forall|before: Seq<Seq<char>>, after: Seq<Seq<char>>|
        c.all_voted(before, pre.term, pre.id) && #[trigger] counts(
            before,
            after,
            input,
            pre,
        ) implies d.all_voted(after, pre.term, pre.id) by {
        assert(d.all_voted(before, pre.term, pre.id));
        if after != before {
            let p = choose|p: Seq<char>| #[trigger]
                grants_vote(input, pre, p) && after == before.push(p);
            assert forall|k: int| 0 <= k < after.len() implies d.voted(
                #[trigger] after[k],
                pre.term,
                pre.id,
            ) by {
                if k < before.len() {
                    assert(after[k] == before[k]);
                    assert(d.voted(before[k], pre.term, pre.id));
                }
            }
        }
    }

    assert forall|j: int| 0 <= j < d.nodes.len() implies (#[trigger] d.nodes[j]).well_formed()
        && d.nodes[j].outbox.len() == 0 by {
        if j != i {
            assert(d.nodes[j] == c.nodes[j]);
        }
    }
    assert forall|j: int| 0 <= j < d.nodes.len() implies #[trigger] d.on_record(j) by {
        if j != i {
            assert(d.nodes[j] == c.nodes[j]);
            assert(c.on_record(j));
        }
    }
    assert forall|j: int| 0 <= j < d.nodes.len() implies #[trigger] d.stands(j) by {
        if j != i {
            assert(d.nodes[j] == c.nodes[j]);
            assert(c.stands(j));
            let node = c.nodes[j];
            if node.role is Candidate {
                assert(c.all_voted(node.role->Candidate_votes, node.term, node.id));
            }
        } else {
            if post.role is Candidate {
                let votes = post.role->Candidate_votes;
                if pre.role is Candidate && post.term == pre.term && counts(
                    pre.role->Candidate_votes,
                    votes,
                    input,
                    pre,
                ) {
                    assert(c.all_voted(pre.role->Candidate_votes, pre.term, pre.id));
                    assert(d.all_voted(votes, pre.term, pre.id));
                } else {
                    assert(votes == seq![post.id]);
                    assert(d.voted(post.id, post.term, post.id));
                    assert(d.all_voted(votes, post.term, post.id));
                }
            }
        }
    }
    assert forall|m: MessageView| #[trigger]
        d.sent.contains(m) && m.event is GrantVote implies m.from is Peer && m.to is Peer
        && d.voted(m.from->Peer_0, m.term, m.to->Peer_0) by {
        if c.sent.contains(m) {
            assert(c.voted(m.from->Peer_0, m.term, m.to->Peer_0));
        } else {
            let k = choose|k: int|
                0 <= k < post.outbox.len() && m == stamped(#[trigger] post.outbox[k], post.id);
            assert(put_out_by(post.outbox[k], post));
        }
    }
    assert forall|term: u64, leader: Seq<char>| #[trigger]
        d.elected.contains((term, leader)) implies d.won(term, leader) by {
        if c.elected.contains((term, leader)) {
            assert(c.won(term, leader));
        } else {
            assert(post.role is Leader && term == post.term && leader == post.id);
            if pre.role is Leader && post.term == pre.term {
                assert(c.elected.contains((pre.term, pre.id)));
            } else {
                let tally = choose|tally: Seq<Seq<char>>|
                    #![trigger tally.no_duplicates()]
                    {
                        &&& counts(pre.role->Candidate_votes, tally, input, pre)
                        &&& tally.no_duplicates()
                        &&& tally.len() >= quorum(pre.peers.len())
                    };
                assert(c.all_voted(pre.role->Candidate_votes, pre.term, pre.id));
                assert(d.all_voted(tally, pre.term, pre.id));
                assert(tally.no_duplicates());
                assert(pre.peers.len() == d.nodes.len() - 1);
            }
        }
    }
}

/// A safe cluster stays safe when one of its nodes starts again from its
/// log.
pub proof fn lemma_restart_safe(c: Cluster, i: int, applied_index: u64, timeout: u64)
    requires
        c.safe(),
        c.enabled(Action::Restart { node: i, applied_index, timeout }),
    ensures
        c.apply(Action::Restart { node: i, applied_index, timeout }).safe(),
{
    let pre = c.nodes[i];
    let post = NodeView::start(pre.id, pre.peers, pre.log, applied_index, timeout)->Ok_0;
    let d = c.settle(i, post);
    assert(d == c.apply(Action::Restart { node: i, applied_index, timeout }));
    lemma_configured_stays(c, i, post);
    lemma_votes_stay(c, i, post);
    assert(c.on_record(i));
    assert(c.ids()[i] == pre.id);
    assert(post.voted_for() == pre.voted_for());
    assert(d.ballots =~= c.ballots);
    assert(d.sent =~= c.sent) by {
        assert(Cluster::leaving(post) =~= Set::<MessageView>::empty());
    }
    assert forall|j: int| 0 <= j < d.nodes.len() implies (#[trigger] d.nodes[j]).well_formed()
        && d.nodes[j].outbox.len() == 0 by {
        if j != i {
            assert(d.nodes[j] == c.nodes[j]);
        }
    }
    assert forall|j: int| 0 <= j < d.nodes.len() implies #[trigger] d.on_record(j) by {
        if j != i {
            assert(d.nodes[j] == c.nodes[j]);
            assert(c.on_record(j));
        }
    }
    assert forall|j: int| 0 <= j < d.nodes.len() implies #[trigger] d.stands(j) by {
        if j != i {
            assert(d.nodes[j] == c.nodes[j]);
            assert(c.stands(j));
            let node = c.nodes[j];
            if node.role is Candidate {
                assert(c.all_voted(node.role->Candidate_votes, node.term, node.id));
            }
        }
    }
    assert forall|term: u64, leader: Seq<char>| #[trigger]
        d.elected.contains((term, leader)) implies d.won(term, leader) by {
        assert(c.won(term, leader));
    }
}

/// A cluster that has just been started is safe.
pub proof fn lemma_initial_safe(c: Cluster)
    requires
        c.initial(),
    ensures
        c.safe(),
{
    assert forall|i: int| 0 <= i < c.nodes.len() implies #[trigger] c.on_record(i) by {}
    assert forall|i: int| 0 <= i < c.nodes.len() implies #[trigger] c.stands(i) by {}
}

/// A safe cluster stays safe whatever happens.
pub proof fn lemma_run_safe(c: Cluster, actions: Seq<Action>)
    requires
        c.safe(),
    ensures
        c.run(actions).safe(),
    decreases actions.len(),
{
    if actions.len() > 0 {
        let action = actions[0];
        if c.enabled(action) {
            match action {
                Action::Advance { node, input } => lemma_advance_safe(c, node, input),
                Action::Restart { node, applied_index, timeout } => lemma_restart_safe(
                    c,
                    node,
                    applied_index,
                    timeout,
                ),
            }
        }
        lemma_run_safe(c.apply(action), actions.drop_first());
    }
}

/// In a safe cluster no term has two leaders.
pub proof fn lemma_one_leader(c: Cluster, term: u64, a: Seq<char>, b: Seq<char>)
    requires
        c.safe(),
        c.elected.contains((term, a)),
        c.elected.contains((term, b)),
    ensures
        a == b,
{
    assert(c.won(term, a));
    assert(c.won(term, b));
    let for_a = choose|tally: Seq<Seq<char>>|
        #![trigger tally.no_duplicates()]
        {
            &&& tally.no_duplicates()
            &&& tally.len() >= quorum((c.nodes.len() - 1) as nat)
            &&& c.all_voted(tally, term, a)
        };
    let for_b = choose|tally: Seq<Seq<char>>|
        #![trigger tally.no_duplicates()]
        {
            &&& tally.no_duplicates()
            &&& tally.len() >= quorum((c.nodes.len() - 1) as nat)
            &&& c.all_voted(tally, term, b)
        };
    assert forall|k: int| 0 <= k < for_a.len() implies c.ids().contains(#[trigger] for_a[k]) by {
        assert(c.voted(for_a[k], term, a));
    }
    assert forall|k: int| 0 <= k < for_b.len() implies c.ids().contains(#[trigger] for_b[k]) by {
        assert(c.voted(for_b[k], term, b));
    }
    assert(c.elected.len() >= 0);
    if c.nodes.len() == 0 {
        assert(c.voted(for_a[0], term, a));
        assert(c.ids().contains(for_a[0]));
    } else {
        lemma_tallies_meet(c.ids(), for_a, for_b);
        let (i, j) = choose|i: int, j: int|
            0 <= i < for_a.len() && 0 <= j < for_b.len() && for_a[i] == for_b[j];
        assert(c.voted(for_a[i], term, a));
        assert(c.voted(for_b[j], term, b));
    }
}

/// Election safety. Whatever happens in a cluster from when it is started,
/// at most one node is ever leader in a term: where the record of leaders
/// holds two nodes with the same term, they are the same node.
pub proof fn law_election_safety(
    start: Cluster,
    actions: Seq<Action>,
    term: u64,
    a: Seq<char>,
    b: Seq<char>,
)
    requires
        start.initial(),
        start.run(actions).elected.contains((term, a)),
        start.run(actions).elected.contains((term, b)),
    ensures
        a == b,
{
    lemma_initial_safe(start);
    lemma_run_safe(start, actions);
    lemma_one_leader(start.run(actions), term, a, b);
}

/// The record of leaders holds every leader: whatever happens in a cluster
/// from when it is started, a node that is leader is on record with its
/// term.
pub proof fn law_leaders_on_record(start: Cluster, actions: Seq<Action>, i: int)
    requires
        start.initial(),
        0 <= i < start.run(actions).nodes.len(),
        start.run(actions).nodes[i].role is Leader,
    ensures
        start.run(actions).elected.contains(
            (start.run(actions).nodes[i].term, start.run(actions).nodes[i].id),
        ),
{
    lemma_initial_safe(start);
    lemma_run_safe(start, actions);
    assert(start.run(actions).stands(i));
}

} // verus!

use crate::error::RaftError;
use crate::log::Store;
use crate::message::{Address, Event, Message};
use crate::node::{
    as_expected,
    Candidate,
    clone_strings,
    draw_election_timeout,
    find_peer,
    Follower,
    Leader,
    Node,
    Role,
    RoleNode,
    string_views,
};
use crate::node::model::{lemma_position, RoleView, timeout_in_window};
use vstd::prelude::*;

verus! {

impl Candidate {
    /// The record of a candidate whose election has just begun, with a
    /// drawn election timeout: no tick yet, and its own vote.
    pub fn new(id: String) -> (candidate: Candidate)
        ensures
            exists|timeout: u64| #[trigger]
                timeout_in_window(timeout) && candidate.view() == (RoleView::Candidate {
                    ticks: 0,
                    election_timeout: timeout,
                    votes: seq![id@],
                }),
    {
        let timeout = draw_election_timeout();
        Candidate::with_timeout(id, timeout)
    }

    /// The record of a candidate whose election has just begun, with the
    /// election timeout given: no tick yet, and its own vote.
    pub fn with_timeout(id: String, timeout: u64) -> (candidate: Candidate)
        ensures
            candidate.view() == (RoleView::Candidate {
                ticks: 0,
                election_timeout: timeout,
                votes: seq![id@],
            }),
    {
        let mut votes: Vec<String> = Vec::new();
        votes.push(id);
        let candidate = Candidate { election_ticks: 0, election_timeout: timeout, votes };
        assert(candidate.view()->Candidate_votes =~= seq![id@]);
        candidate
    }
}

impl<S: Store> RoleNode<S, Candidate> {
    /// The node after one tick, with a drawn election timeout for the
    /// election that the tick may start.
    pub fn tick(self) -> (r: Result<Node<S>, RaftError>)
        requires
            self.wf(),
        ensures
            exists|timeout: u64| #[trigger]
                timeout_in_window(timeout) && as_expected(
                    r,
                    self@.tick(timeout),
                    self.infallible(),
                ),
    {
        let timeout = draw_election_timeout();
        self.tick_with(timeout)
    }

    /// The node after one tick: one more tick of the election, or, where
    /// that reaches the election timeout, a new election with the election
    /// timeout given.
    pub fn tick_with(self, timeout: u64) -> (r: Result<Node<S>, RaftError>)
        requires
            self.wf(),
            timeout_in_window(timeout),
        ensures
            as_expected(r, self@.tick(timeout), self.infallible()),
    {
        if self.role.election_ticks + 1 >= self.role.election_timeout {
            self.campaign(timeout)
        } else {
            let mut node = self;
            node.role.election_ticks = node.role.election_ticks + 1;
            Ok(Node::Candidate(node))
        }
    }

    /// The node after a message, with a drawn election timeout for the
    /// role that the message may lead to.
    pub fn step(self, msg: Message) -> (r: Result<Node<S>, RaftError>)
        requires
            self.wf(),
        ensures
            exists|timeout: u64| #[trigger]
                timeout_in_window(timeout) && as_expected(
                    r,
                    self@.step(msg@, timeout),
                    self.infallible(),
                ),
    {
        let timeout = draw_election_timeout();
        self.step_with(msg, timeout)
    }

    /// The node after a message, with the election timeout given for the
    /// role that the message may lead to.
    pub fn step_with(self, msg: Message, timeout: u64) -> (r: Result<Node<S>, RaftError>)
        requires
            self.wf(),
            timeout_in_window(timeout),
        ensures
            as_expected(r, self@.step(msg@, timeout), self.infallible()),
    {
        if msg.event.from_client() {
            self.handle(msg, timeout)
        } else if msg.term > self.term {
            match self.demote(&msg, timeout) {
                Ok(follower) => follower.handle(msg),
                Err(e) => Err(e),
            }
        } else if msg.term < self.term {
            Ok(Node::Candidate(self))
        } else {
            self.handle(msg, timeout)
        }
    }

    /// What a candidate makes of a message of its own term, or of a client.
    pub(crate) fn handle(self, msg: Message, timeout: u64) -> (r: Result<Node<S>, RaftError>)
        requires
            self.wf(),
            timeout_in_window(timeout),
        ensures
            as_expected(r, self@.step_candidate(msg@, timeout), self.infallible()),
    {
        let ghost before = self@;
        let mut node = self;
        match (&msg.event, &msg.from) {
            (Event::GrantVote, Address::Peer(p)) => {
                let ghost votes = string_views(&node.role.votes);
                proof {
                    lemma_position(votes, p@);
                }
                if find_peer(&node.role.votes, p).is_none() {
                    node.role.votes.push(p.clone());
                    proof {
                        assert(string_views(&node.role.votes) =~= votes.push(p@));
                    }
                }
                if node.role.votes.len() as u64 >= node.watershed() {
                    node.transfer_leader()
                } else {
                    Ok(Node::Candidate(node))
                }
            },
            (Event::Heartbeat { .. }, Address::Peer(p)) => {
                match node.transfer_follower(p.clone(), timeout) {
                    Ok(follower) => follower.handle(msg),
                    Err(e) => Err(e),
                }
            },
            (Event::ReplicateEntries { .. }, Address::Peer(p)) => {
                match node.transfer_follower(p.clone(), timeout) {
                    Ok(follower) => follower.handle(msg),
                    Err(e) => Err(e),
                }
            },
            (Event::ClientRequest { id, .. }, _) => {
                let _ = node.send(
                    Address::Client,
                    Event::ClientResponse { id: crate::bytes::clone_bytes(id), result: None },
                );
                Ok(Node::Candidate(node))
            },
            _ => Ok(Node::Candidate(node)),
        }
    }

    /// The candidate as a follower of `leader`, a peer that leads its
    /// term. Its vote stays the one it gave itself.
    pub(crate) fn transfer_follower(self, leader: String, timeout: u64) -> (r: Result<
        RoleNode<S, Follower>,
        RaftError,
    >)
        requires
            self.wf(),
            timeout_in_window(timeout),
        ensures
            r matches Ok(node) && node.wf() && node.infallible() == self.infallible() && node@
                == self@.follow(Some(leader@), Some(self@.id), timeout),
    {
        let id = self.id.clone();
        self.transfer_role(Follower::with_timeout(Some(leader), Some(id), timeout))
    }

    /// The candidate as the leader of its term, which it announces at once.
    pub(crate) fn transfer_leader(self) -> (r: Result<Node<S>, RaftError>)
        requires
            self.wf(),
        ensures
            r matches Ok(node) && node.wf() && node.infallible() == self.infallible() && node@
                == self@.lead(),
    {
        let last_index = self.log.last_index();
        let commit_index = self.log.commit_index();
        let commit_term = self.log.commit_term();
        let peers = clone_strings(&self.peers);
        let mut node = match self.transfer_role(Leader::new(peers, last_index)) {
            Ok(node) => node,
            Err(e) => {
                return Err(e);
            },
        };
        let _ = node.send(Address::Peers, Event::Heartbeat { commit_index, commit_term });
        Ok(Node::Leader(node))
    }
}

} // verus!

//! The role machine as mathematics: what a node holds, and the state that
//! each tick and each message leads to.

use crate::codec::{entry_encoding, metadata_encoding};
use crate::error::RaftError;
use crate::instruction::{applications, InstructionView};
use crate::log::{Bound, Range};
use crate::log::log::{EntryView, LogView};
use crate::message::{AddressView, EventView, MessageView};
use vstd::prelude::*;

verus! {

/// Ticks between two heartbeats of a leader.
pub const HEARTBEAT_INTERVAL: u64 = 1;

/// The least number of ticks without a leader before an election.
pub const ELECTION_TIMEOUT_MIN: u64 = 2 * HEARTBEAT_INTERVAL;

/// The greatest number of ticks without a leader before an election.
pub const ELECTION_TIMEOUT_MAX: u64 = 5 * HEARTBEAT_INTERVAL;

/// Whether `timeout` is one that an election may be given.
pub open spec fn timeout_in_window(timeout: u64) -> bool {
    ELECTION_TIMEOUT_MIN <= timeout <= ELECTION_TIMEOUT_MAX
}

/// The votes that win an election in a cluster of `peers` peers and the
/// node itself: a strict majority.
pub open spec fn quorum(peers: nat) -> nat {
    (peers + 1) / 2 + 1
}

/// The position of `peer` in `peers`: the first one that holds it.
pub open spec fn position(peers: Seq<Seq<char>>, peer: Seq<char>) -> Option<int>
    decreases peers.len(),
{
    if peers.len() == 0 {
        None
    } else if peers[0] == peer {
        Some(0)
    } else {
        match position(peers.drop_first(), peer) {
            Some(i) => Some(i + 1),
            None => None,
        }
    }
}

/// The position found is the first that holds the peer, and none is found
/// only where no position holds it.
pub proof fn lemma_position(peers: Seq<Seq<char>>, peer: Seq<char>)
    ensures
        match position(peers, peer) {
            Some(i) => 0 <= i < peers.len() && peers[i] == peer && forall|j: int|
                0 <= j < i ==> peers[j] != peer,
            None => !peers.contains(peer),
        },
    decreases peers.len(),
{
    if peers.len() > 0 && peers[0] != peer {
        let rest = peers.drop_first();
        lemma_position(rest, peer);
        match position(rest, peer) {
            Some(i) => {
                assert(rest[i] == peers[i + 1]);
                assert forall|j: int| 0 <= j < i + 1 implies peers[j] != peer by {
                    if j > 0 {
                        assert(rest[j - 1] == peers[j]);
                    }
                }
            },
            None => {
                assert forall|j: int| 0 <= j < peers.len() implies peers[j] != peer by {
                    if j > 0 {
                        assert(rest[j - 1] == peers[j]);
                        assert(rest.contains(rest[j - 1]));
                    }
                }
            },
        }
    }
}

/// How many of `match_index` have reached `index`.
pub open spec fn reached(match_index: Seq<u64>, index: nat) -> nat
    decreases match_index.len(),
{
    if match_index.len() == 0 {
        0
    } else {
        reached(match_index.drop_last(), index) + if match_index.last() >= index {
            1nat
        } else {
            0nat
        }
    }
}

/// The record of the role that a node is in.
pub enum RoleView {
    Follower {
        leader: Option<Seq<char>>,
        voted_for: Option<Seq<char>>,
        idle_ticks: u64,
        election_timeout: u64,
    },
    Candidate { ticks: u64, election_timeout: u64, votes: Seq<Seq<char>> },
    Leader { heartbeat_ticks: u64, next_index: Seq<u64>, match_index: Seq<u64> },
}

/// What a node holds. `outbox` is what it has to send, oldest first, and
/// `instructions` what it has to hand to the driver.
pub struct NodeView {
    pub id: Seq<char>,
    pub peers: Seq<Seq<char>>,
    pub term: u64,
    pub log: LogView,
    pub outbox: Seq<MessageView>,
    pub instructions: Seq<InstructionView>,
    pub role: RoleView,
}

impl NodeView {
    /// A node as it starts: a follower without a leader, with the term and
    /// the vote that its log has saved, and with the instructions that
    /// apply what the log has committed and the state has not applied yet.
    /// Refused where the state has applied more than the log has committed.
    pub open spec fn start(
        id: Seq<char>,
        peers: Seq<Seq<char>>,
        log: LogView,
        applied_index: u64,
        timeout: u64,
    ) -> Result<NodeView, RaftError> {
        if applied_index > log.commit_index {
            Err(RaftError::LogInconsistency)
        } else {
            Ok(
                NodeView {
                    id,
                    peers,
                    term: log.term,
                    log,
                    outbox: Seq::empty(),
                    instructions: applications(log, applied_index as nat, log.commit_index),
                    role: RoleView::Follower {
                        leader: None,
                        voted_for: log.voted_for,
                        idle_ticks: 0,
                        election_timeout: timeout,
                    },
                },
            )
        }
    }

    /// The peer that the node has voted for in its term.
    pub open spec fn voted_for(self) -> Option<Seq<char>> {
        match self.role {
            RoleView::Follower { voted_for, .. } => voted_for,
            _ => Some(self.id),
        }
    }

    /// The node's invariant: the log is in order, the term and the vote are
    /// the ones saved, and the role record is in order.
    pub open spec fn well_formed(self) -> bool {
        &&& self.log.well_formed()
        &&& self.log.term == self.term
        &&& self.log.voted_for == self.voted_for()
        &&& match self.role {
            RoleView::Follower { idle_ticks, election_timeout, .. } => {
                &&& timeout_in_window(election_timeout)
                &&& idle_ticks < election_timeout
            },
            RoleView::Candidate { ticks, election_timeout, votes } => {
                &&& timeout_in_window(election_timeout)
                &&& ticks < election_timeout
                &&& votes.no_duplicates()
                &&& votes.len() >= 1
                &&& votes[0] == self.id
            },
            RoleView::Leader { heartbeat_ticks, next_index, match_index } => {
                &&& heartbeat_ticks < HEARTBEAT_INTERVAL
                &&& next_index.len() == self.peers.len()
                &&& match_index.len() == self.peers.len()
                &&& forall|i: int| 0 <= i < next_index.len() ==> #[trigger] next_index[i] >= 1
            },
        }
    }

    /// The node with one more message to send: from the local node, in its
    /// term.
    pub open spec fn send(self, to: AddressView, event: EventView) -> NodeView {
        NodeView {
            outbox: self.outbox.push(
                MessageView { term: self.term, from: AddressView::Local, to, event },
            ),
            ..self
        }
    }

    /// The node as a follower that has just been entered.
    pub open spec fn follow(
        self,
        leader: Option<Seq<char>>,
        voted_for: Option<Seq<char>>,
        timeout: u64,
    ) -> NodeView {
        NodeView {
            role: RoleView::Follower { leader, voted_for, idle_ticks: 0, election_timeout: timeout },
            ..self
        }
    }

    /// A node that starts an election: the next term, a vote for itself
    /// saved, and a call for votes to all peers.
    pub open spec fn campaign(self, timeout: u64) -> Result<NodeView, RaftError> {
        if self.term == u64::MAX {
            Err(RaftError::Exhausted)
        } else if metadata_encoding((self.term + 1) as u64, Some(self.id)) is None {
            Err(RaftError::Decode)
        } else {
            Ok(
                NodeView {
                    term: (self.term + 1) as u64,
                    log: self.log.save((self.term + 1) as u64, Some(self.id)),
                    role: RoleView::Candidate {
                        ticks: 0,
                        election_timeout: timeout,
                        votes: seq![self.id],
                    },
                    ..self
                }.send(
                    AddressView::Peers,
                    EventView::SolicitVote {
                        last_index: self.log.last_index() as u64,
                        last_term: self.log.last_term(),
                    },
                ),
            )
        }
    }

    /// A node that has seen a higher term: it takes the term, saves it with
    /// no vote, and follows the sender where that is a peer.
    pub open spec fn demote(self, msg: MessageView, timeout: u64) -> Result<NodeView, RaftError> {
        if metadata_encoding(msg.term, None) is None {
            Err(RaftError::Decode)
        } else {
            Ok(
                NodeView { term: msg.term, log: self.log.save(msg.term, None), ..self }.follow(
                    match msg.from {
                        AddressView::Peer(p) => Some(p),
                        _ => None,
                    },
                    None,
                    timeout,
                ),
            )
        }
    }

    /// A candidate that has won: a leader that expects every peer to need
    /// the entry after its last, and that announces itself at once.
    pub open spec fn lead(self) -> NodeView {
        NodeView {
            role: RoleView::Leader {
                heartbeat_ticks: 0,
                next_index: Seq::new(
                    self.peers.len(),
                    |i: int| (self.log.last_index() + 1) as u64,
                ),
                match_index: Seq::new(self.peers.len(), |i: int| 0u64),
            },
            ..self
        }.send(
            AddressView::Peers,
            EventView::Heartbeat {
                commit_index: self.log.commit_index as u64,
                commit_term: self.log.commit_term(),
            },
        )
    }

    /// The node after one tick.
    pub open spec fn tick(self, timeout: u64) -> Result<NodeView, RaftError> {
        match self.role {
            RoleView::Follower { leader, voted_for, idle_ticks, election_timeout } => {
                if idle_ticks + 1 >= election_timeout {
                    self.campaign(timeout)
                } else {
                    Ok(
                        NodeView {
                            role: RoleView::Follower {
                                leader,
                                voted_for,
                                idle_ticks: (idle_ticks + 1) as u64,
                                election_timeout,
                            },
                            ..self
                        },
                    )
                }
            },
            RoleView::Candidate { ticks, election_timeout, votes } => {
                if ticks + 1 >= election_timeout {
                    self.campaign(timeout)
                } else {
                    Ok(
                        NodeView {
                            role: RoleView::Candidate {
                                ticks: (ticks + 1) as u64,
                                election_timeout,
                                votes,
                            },
                            ..self
                        },
                    )
                }
            },
            RoleView::Leader { heartbeat_ticks, next_index, match_index } => {
                if heartbeat_ticks + 1 >= HEARTBEAT_INTERVAL {
                    Ok(
                        NodeView {
                            role: RoleView::Leader { heartbeat_ticks: 0, next_index, match_index },
                            ..self
                        }.send(
                            AddressView::Peers,
                            EventView::Heartbeat {
                                commit_index: self.log.commit_index as u64,
                                commit_term: self.log.commit_term(),
                            },
                        ),
                    )
                } else {
                    Ok(
                        NodeView {
                            role: RoleView::Leader {
                                heartbeat_ticks: (heartbeat_ticks + 1) as u64,
                                next_index,
                                match_index,
                            },
                            ..self
                        },
                    )
                }
            },
        }
    }

    /// The node after a message: a higher term demotes it first, a lower
    /// term is dropped, and the rest is up to the role.
    ///
    /// A client's request or response goes to the role as it is, past both
    /// rules. Such a message carries no term: the number in its `term` field
    /// is whatever the sender left there, and stands for no node's term. Were
    /// the first rule to read it, any client could depose a leader and raise
    /// the cluster's term by writing a large number; were the second to read
    /// it, a leader of any term above zero would drop every request. Terms
    /// are compared between peers only.
    pub open spec fn step(self, msg: MessageView, timeout: u64) -> Result<NodeView, RaftError> {
        if msg.event.from_client() {
            self.step_in_role(msg, timeout)
        } else if msg.term > self.term {
            match self.demote(msg, timeout) {
                Ok(follower) => follower.step_follower(msg),
                Err(e) => Err(e),
            }
        } else if msg.term < self.term {
            Ok(self)
        } else {
            self.step_in_role(msg, timeout)
        }
    }

    /// What the node's role makes of a message of its own term.
    pub open spec fn step_in_role(self, msg: MessageView, timeout: u64) -> Result<
        NodeView,
        RaftError,
    > {
        match self.role {
            RoleView::Follower { .. } => self.step_follower(msg),
            RoleView::Candidate { .. } => self.step_candidate(msg, timeout),
            RoleView::Leader { .. } => self.step_leader(msg),
        }
    }

    /// The follower with its leader set to `peer` and its idle ticks at 0.
    pub open spec fn hear(self, peer: Seq<char>) -> NodeView {
        match self.role {
            RoleView::Follower { voted_for, election_timeout, .. } => NodeView {
                role: RoleView::Follower {
                    leader: Some(peer),
                    voted_for,
                    idle_ticks: 0,
                    election_timeout,
                },
                ..self
            },
            _ => self,
        }
    }

    /// The node committed up to `index`, with the instructions that apply
    /// what that commits.
    pub open spec fn commit_to(self, index: nat) -> NodeView {
        NodeView {
            log: self.log.commit(index),
            instructions: self.instructions + applications(self.log, self.log.commit_index, index),
            ..self
        }
    }

    /// What a follower makes of a message.
    pub open spec fn step_follower(self, msg: MessageView) -> Result<NodeView, RaftError> {
        match (msg.event, msg.from) {
            (EventView::Heartbeat { commit_index, commit_term }, AddressView::Peer(p)) => {
                let held = self.log.has(commit_index as int, commit_term);
                let heard = self.hear(p);
                let next = if held && commit_index > self.log.commit_index {
                    heard.commit_to(commit_index as nat)
                } else {
                    heard
                };
                Ok(
                    next.send(
                        AddressView::Peer(p),
                        EventView::ConfirmLeader { commit_index, has_committed: held },
                    ),
                )
            },
            (EventView::SolicitVote { last_index, last_term }, AddressView::Peer(p)) => {
                if self.grants(p, last_index, last_term) {
                    if metadata_encoding(self.term, Some(p)) is None {
                        Err(RaftError::Decode)
                    } else {
                        Ok(
                            NodeView {
                                log: self.log.save(self.term, Some(p)),
                                role: match self.role {
                                    RoleView::Follower { leader, election_timeout, .. } => {
                                        RoleView::Follower {
                                            leader,
                                            voted_for: Some(p),
                                            idle_ticks: 0,
                                            election_timeout,
                                        }
                                    },
                                    other => other,
                                },
                                ..self
                            }.send(AddressView::Peer(p), EventView::GrantVote),
                        )
                    }
                } else {
                    Ok(self)
                }
            },
            (EventView::ReplicateEntries { base_index, base_term, entries }, AddressView::Peer(p)) => {
                let heard = self.hear(p);
                if accepts(self.log, base_index, base_term, entries) {
                    match splice(self.log, base_index, entries) {
                        Ok(log) => Ok(
                            NodeView { log, ..heard }.send(
                                AddressView::Peer(p),
                                EventView::AcceptEntries { last_index: log.last_index() as u64 },
                            ),
                        ),
                        Err(e) => Err(e),
                    }
                } else {
                    Ok(heard.send(AddressView::Peer(p), EventView::RejectEntries))
                }
            },
            (EventView::ClientRequest { id, payload }, _) => {
                match self.role {
                    RoleView::Follower { leader: Some(l), .. } => Ok(
                        self.send(AddressView::Peer(l), msg.event),
                    ),
                    _ => Ok(
                        self.send(
                            AddressView::Client,
                            EventView::ClientResponse { id, result: None },
                        ),
                    ),
                }
            },
            _ => Ok(self),
        }
    }

    /// Whether a follower grants its vote to the candidate `p`, whose log
    /// ends at `last_index` with term `last_term`: it has not voted for
    /// another, and the candidate's log is at least as up to date as its own.
    pub open spec fn grants(self, p: Seq<char>, last_index: u64, last_term: u64) -> bool {
        &&& self.voted_for() is None || self.voted_for() == Some(p)
        &&& last_term > self.log.last_term() || (last_term == self.log.last_term() && last_index
            >= self.log.last_index())
    }

    /// What a candidate makes of a message.
    pub open spec fn step_candidate(self, msg: MessageView, timeout: u64) -> Result<
        NodeView,
        RaftError,
    > {
        match (msg.event, msg.from, self.role) {
            (
                EventView::GrantVote,
                AddressView::Peer(p),
                RoleView::Candidate { ticks, election_timeout, votes },
            ) => {
                let counted = if votes.contains(p) {
                    votes
                } else {
                    votes.push(p)
                };
                let tallied = NodeView {
                    role: RoleView::Candidate { ticks, election_timeout, votes: counted },
                    ..self
                };
                if counted.len() >= quorum(self.peers.len()) {
                    Ok(tallied.lead())
                } else {
                    Ok(tallied)
                }
            },
            (EventView::Heartbeat { .. }, AddressView::Peer(p), _) => self.follow(
                Some(p),
                Some(self.id),
                timeout,
            ).step_follower(msg),
            (EventView::ReplicateEntries { .. }, AddressView::Peer(p), _) => self.follow(
                Some(p),
                Some(self.id),
                timeout,
            ).step_follower(msg),
            (EventView::ClientRequest { id, payload }, _, _) => Ok(
                self.send(AddressView::Client, EventView::ClientResponse { id, result: None }),
            ),
            _ => Ok(self),
        }
    }

    /// The leader after it has sent the peer at position `i` the entries
    /// from that peer's next index on, with the index and term before them.
    pub open spec fn replicate(self, i: int) -> NodeView {
        match self.role {
            RoleView::Leader { next_index, .. } => {
                let next = next_index[i];
                let base_index = if next > 0 {
                    (next - 1) as u64
                } else {
                    0
                };
                self.send(
                    AddressView::Peer(self.peers[i]),
                    EventView::ReplicateEntries {
                        base_index,
                        base_term: self.log.term_at(base_index as int),
                        entries: (Range {
                            start: Bound::Included(next),
                            end: Bound::Included(self.log.last_index() as u64),
                        }).select(self.log.entries),
                    },
                )
            },
            _ => self,
        }
    }

    /// The leader after it has sent their entries to the peers at the
    /// positions from `i` on, in order.
    pub open spec fn replicate_from(self, i: int) -> NodeView
        decreases self.peers.len() - i,
    {
        if 0 <= i < self.peers.len() {
            self.replicate(i).replicate_from(i + 1)
        } else {
            self
        }
    }

    /// Whether a leader may commit the entry at `index`: it lies after the
    /// commit index, the leader and the peers that have reached it are a
    /// quorum, and it is of the leader's term.
    pub open spec fn may_commit(self, index: nat) -> bool {
        match self.role {
            RoleView::Leader { match_index, .. } => {
                &&& self.log.commit_index < index <= self.log.last_index()
                &&& reached(match_index, index) + 1 >= quorum(self.peers.len())
                &&& self.log.term_at(index as int) == self.term
            },
            _ => false,
        }
    }

    /// The greatest index up to `limit` that a leader may commit; its
    /// commit index where there is none.
    pub open spec fn commit_target(self, limit: nat) -> nat
        decreases limit,
    {
        if limit <= self.log.commit_index {
            self.log.commit_index
        } else if self.may_commit(limit) {
            limit
        } else {
            self.commit_target((limit - 1) as nat)
        }
    }

    /// What a leader makes of a message.
    pub open spec fn step_leader(self, msg: MessageView) -> Result<NodeView, RaftError> {
        match (msg.event, msg.from, self.role) {
            (
                EventView::ConfirmLeader { commit_index, has_committed },
                AddressView::Peer(p),
                _,
            ) => {
                let noted = NodeView {
                    instructions: self.instructions.push(
                        InstructionView::Vote {
                            term: msg.term,
                            index: commit_index,
                            address: AddressView::Peer(p),
                        },
                    ),
                    ..self
                };
                match position(self.peers, p) {
                    Some(i) if !has_committed => Ok(noted.replicate(i)),
                    _ => Ok(noted),
                }
            },
            (
                EventView::AcceptEntries { last_index },
                AddressView::Peer(p),
                RoleView::Leader { heartbeat_ticks, next_index, match_index },
            ) => {
                match position(self.peers, p) {
                    Some(i) if last_index < u64::MAX => {
                        let moved = NodeView {
                            role: RoleView::Leader {
                                heartbeat_ticks,
                                next_index: next_index.update(i, (last_index + 1) as u64),
                                match_index: match_index.update(
                                    i,
                                    if match_index[i] >= last_index {
                                        match_index[i]
                                    } else {
                                        last_index
                                    },
                                ),
                            },
                            ..self
                        };
                        let target = moved.commit_target(moved.log.last_index());
                        if target > moved.log.commit_index {
                            Ok(moved.commit_to(target))
                        } else {
                            Ok(moved)
                        }
                    },
                    _ => Ok(self),
                }
            },
            (
                EventView::RejectEntries,
                AddressView::Peer(p),
                RoleView::Leader { heartbeat_ticks, next_index, match_index },
            ) => {
                match position(self.peers, p) {
                    Some(i) => Ok(
                        NodeView {
                            role: RoleView::Leader {
                                heartbeat_ticks,
                                next_index: next_index.update(
                                    i,
                                    if next_index[i] > 1 {
                                        (next_index[i] - 1) as u64
                                    } else {
                                        1
                                    },
                                ),
                                match_index,
                            },
                            ..self
                        }.replicate(i),
                    ),
                    None => Ok(self),
                }
            },
            (EventView::ClientRequest { id, payload }, _, _) => {
                if self.log.last_index() + 1 >= u64::MAX {
                    Err(RaftError::Exhausted)
                } else if entry_encoding(
                    (self.log.last_index() + 1) as u64,
                    self.term,
                    Some(payload),
                ) is None {
                    Err(RaftError::Decode)
                } else {
                    Ok(
                        NodeView {
                            log: self.log.append(self.term, Some(payload)),
                            ..self
                        }.replicate_from(0),
                    )
                }
            },
            _ => Ok(self),
        }
    }
}

/// Whether a follower's log takes entries after `base_index`: it holds
/// `base_term` there, or the entries start the log, and the entries are
/// numbered from the index after the base without a gap.
pub open spec fn accepts(
    log: LogView,
    base_index: u64,
    base_term: u64,
    entries: Seq<EntryView>,
) -> bool {
    &&& base_index == 0 || log.has(base_index as int, base_term)
    &&& base_index + entries.len() < u64::MAX
    &&& forall|k: int| 0 <= k < entries.len() ==> (#[trigger] entries[k]).index == base_index + 1 + k
}

/// How many of `entries`, from the first on, the log already holds after
/// `base_index` with the same term.
pub open spec fn agreeing(log: LogView, base_index: u64, entries: Seq<EntryView>) -> nat
    decreases entries.len(),
{
    if entries.len() == 0 || base_index + 1 > log.entries.len() || log.entries[base_index as int].term
        != entries[0].term {
        0
    } else {
        1 + agreeing(log, (base_index + 1) as u64, entries.drop_first())
    }
}

/// The log after a follower has taken `entries` after `base_index`: what
/// it held and agrees with stays; from the first entry that differs in
/// term, what it held is dropped, which is refused where that is committed;
/// the entries that it does not hold are appended.
pub open spec fn splice(log: LogView, base_index: u64, entries: Seq<EntryView>) -> Result<
    LogView,
    RaftError,
> {
    let agreed = agreeing(log, base_index, entries);
    let keep = base_index + agreed;
    if agreed == entries.len() {
        Ok(log)
    } else if keep < log.commit_index {
        Err(RaftError::LogInconsistency)
    } else if exists|k: int|
        agreed <= k < entries.len() && entry_encoding(
            (#[trigger] entries[k]).index,
            entries[k].term,
            entries[k].command,
        ) is None {
        Err(RaftError::Decode)
    } else {
        Ok(
            LogView {
                entries: log.entries.take(keep) + entries.subrange(
                    agreed as int,
                    entries.len() as int,
                ),
                ..log
            },
        )
    }
}

} // verus!

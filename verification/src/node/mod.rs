//! The role machine: a node that is a follower, a candidate or a leader.
//!
//! A node does no I/O. What it has to send it puts in its outbox, and what
//! the driver has to do in its list of instructions; the caller takes both
//! after each tick and each message.

pub mod applying;
pub mod candidate;
pub mod effects;
pub mod election;
pub mod follower;
pub mod laws;
pub mod leader;
pub mod model;
pub mod replication;

use crate::bytes::clone_bytes;
use crate::error::RaftError;
use crate::instruction::{applications, command_bytes, Instruction, instruction_views};
use crate::log::{Bound, Range, Store};
use crate::log::log::{entry_views, Log};
use crate::message::{Address, Event, Message, message_views};
use crate::node::model::{
    ELECTION_TIMEOUT_MAX,
    ELECTION_TIMEOUT_MIN,
    NodeView,
    position,
    quorum,
    RoleView,
    timeout_in_window,
};
use vstd::prelude::*;

verus! {

/// The characters of each string of a list.
pub open spec fn string_views(strings: &Vec<String>) -> Seq<Seq<char>> {
    Seq::new(strings@.len(), |i: int| strings@[i]@)
}

/// A copy of a list of strings.
pub fn clone_strings(strings: &Vec<String>) -> (copy: Vec<String>)
    ensures
        string_views(&copy) == string_views(strings),
{
    let mut copy: Vec<String> = Vec::with_capacity(strings.len());
    let mut i: usize = 0;
    while i < strings.len()
        invariant
            i <= strings.len(),
            string_views(&copy) == string_views(strings).take(i as int),
        decreases strings.len() - i,
    {
        let ghost before = string_views(&copy);
        copy.push(strings[i].clone());
        assert(string_views(&copy) =~= before.push(strings[i as int]@));
        i += 1;
        assert(string_views(&copy) =~= string_views(strings).take(i as int));
    }
    assert(string_views(strings).take(strings.len() as int) =~= string_views(strings));
    copy
}

/// The position of `peer` in `peers`: the first one that holds it.
pub fn find_peer(peers: &Vec<String>, peer: &String) -> (at: Option<usize>)
    ensures
        match at {
            Some(i) => position(string_views(peers), peer@) == Some(i as int) && i < peers.len(),
            None => position(string_views(peers), peer@) is None,
        },
{
    let ghost all = string_views(peers);
    assert(all.skip(0) =~= all);
    let mut i: usize = 0;
    while i < peers.len()
        invariant
            i <= peers.len(),
            all == string_views(peers),
            match position(all.skip(i as int), peer@) {
                Some(k) => position(all, peer@) == Some(k + i),
                None => position(all, peer@) is None,
            },
        decreases peers.len() - i,
    {
        let ghost rest = all.skip(i as int);
        assert(rest[0] == peers[i as int]@);
        assert(rest.drop_first() =~= all.skip(i + 1));
        if peers[i] == *peer {
            return Some(i);
        }
        i += 1;
    }
    assert(all.skip(peers.len() as int).len() == 0);
    None
}

/// The votes that win an election in a cluster of `peers` peers and the
/// node itself: a strict majority.
pub fn quorum_of(peers: usize) -> (votes: u64)
    ensures
        votes == quorum(peers as nat),
{
    let n = peers as u64;
    n / 2 + n % 2 + 1
}

/// A number drawn at random between `low` and `high`, both included.
///
/// Calls `rand::Rng::gen_range` on the thread's generator with the
/// inclusive range from `low` to `high`. Trusted: the number drawn lies in
/// that range. The range must not be empty: `gen_range` panics on an empty
/// one.
#[verifier::external_body]
fn random_between(low: u64, high: u64) -> (drawn: u64)
    requires
        low <= high,
    ensures
        low <= drawn <= high,
{
    rand::Rng::gen_range(&mut rand::thread_rng(), low..=high)
}

/// A draw of the number of ticks that a node waits for a leader: a number
/// of the election window.
pub(crate) fn draw_election_timeout() -> (timeout: u64)
    ensures
        timeout_in_window(timeout),
{
    random_between(ELECTION_TIMEOUT_MIN, ELECTION_TIMEOUT_MAX)
}

/// The role a node is in.
#[derive(Clone, Copy, Debug, PartialEq, Eq, Structural)]
pub enum NodeRole {
    Candidate,
    Follower,
    Leader,
}

/// The record of a role.
pub trait Role {
    /// What the record holds.
    spec fn view(&self) -> RoleView;
}

/// The record of a follower: the leader it knows of, the peer it has voted
/// for in its term, the ticks since it last heard of a leader, and the
/// number of such ticks at which it starts an election.
pub struct Follower {
    leader: Option<String>,
    voted_for: Option<String>,
    leader_seen_ticks: u64,
    leader_seen_timeout: u64,
}

/// The record of a candidate: the ticks since the election began, the
/// number of ticks at which it starts another, and the voters so far, the
/// candidate itself first.
pub struct Candidate {
    election_ticks: u64,
    election_timeout: u64,
    votes: Vec<String>,
}

/// The record of a leader: the ticks since its last heartbeat, and for the
/// peer at each position the next index to send and the last index known
/// to be held.
pub struct Leader {
    heartbeat_ticks: u64,
    peer_next_index: Vec<u64>,
    peer_last_index: Vec<u64>,
}

/// The characters of an optional string.
pub open spec fn name_view(name: Option<String>) -> Option<Seq<char>> {
    match name {
        Some(n) => Some(n@),
        None => None,
    }
}

/// A copy of an optional string.
pub fn clone_name(name: &Option<String>) -> (copy: Option<String>)
    ensures
        name_view(copy) == name_view(*name),
{
    match name {
        Some(n) => Some(n.clone()),
        None => None,
    }
}

impl Role for Follower {
    closed spec fn view(&self) -> RoleView {
        RoleView::Follower {
            leader: name_view(self.leader),
            voted_for: name_view(self.voted_for),
            idle_ticks: self.leader_seen_ticks,
            election_timeout: self.leader_seen_timeout,
        }
    }
}

impl Role for Candidate {
    closed spec fn view(&self) -> RoleView {
        RoleView::Candidate {
            ticks: self.election_ticks,
            election_timeout: self.election_timeout,
            votes: string_views(&self.votes),
        }
    }
}

impl Role for Leader {
    closed spec fn view(&self) -> RoleView {
        RoleView::Leader {
            heartbeat_ticks: self.heartbeat_ticks,
            next_index: self.peer_next_index@,
            match_index: self.peer_last_index@,
        }
    }
}

/// A node in one role: what all roles share, and the role's record.
pub struct RoleNode<S: Store, R> {
    id: String,
    log: Log<S>,
    peers: Vec<String>,
    term: u64,
    outbox: Vec<Message>,
    instructions: Vec<Instruction>,
    role: R,
}

impl<S: Store, R: Role> RoleNode<S, R> {
    /// What the node holds.
    pub closed spec fn view(&self) -> NodeView {
        NodeView {
            id: self.id@,
            peers: string_views(&self.peers),
            term: self.term,
            log: self.log@,
            outbox: message_views(&self.outbox),
            instructions: instruction_views(&self.instructions),
            role: self.role.view(),
        }
    }

    /// What ties the node to its store.
    pub closed spec fn inv(&self) -> bool {
        self.log.wf()
    }

    /// The node's invariant.
    pub open spec fn wf(&self) -> bool {
        self.inv() && self@.well_formed()
    }

    /// Whether the store under the node's log never fails.
    pub closed spec fn infallible(&self) -> bool {
        self.log.infallible()
    }

    /// The node in another role, with all else as it was.
    pub fn transfer_role<T: Role>(self, r: T) -> (node: Result<RoleNode<S, T>, RaftError>)
        ensures
            node matches Ok(n) && n@ == (NodeView { role: r.view(), ..self@ }) && n.inv()
                == self.inv() && n.infallible() == self.infallible(),
    {
        Ok(
            RoleNode {
                id: self.id,
                log: self.log,
                peers: self.peers,
                term: self.term,
                outbox: self.outbox,
                instructions: self.instructions,
                role: r,
            },
        )
    }

    /// Puts a message from the local node, in its term, into the outbox.
    pub fn send(&mut self, to: Address, event: Event) -> (r: Result<(), RaftError>)
        ensures
            r is Ok,
            final(self)@ == old(self)@.send(to@, event@),
            final(self).inv() == old(self).inv(),
            final(self).infallible() == old(self).infallible(),
    {
        let ghost before = message_views(&self.outbox);
        let msg = Message { term: self.term, from: Address::Local, to, event };
        self.outbox.push(msg);
        assert(message_views(&self.outbox) =~= before.push(msg@));
        Ok(())
    }

    /// The votes that win an election: a strict majority of the peers and
    /// the node itself.
    pub fn watershed(&self) -> (votes: u64)
        ensures
            votes == quorum(self@.peers.len()),
    {
        quorum_of(self.peers.len())
    }

    /// The node's id.
    pub fn id(&self) -> (id: &String)
        ensures
            id@ == self@.id,
    {
        &self.id
    }

    /// The node's term.
    pub fn term(&self) -> (term: u64)
        ensures
            term == self@.term,
    {
        self.term
    }

    /// The node's log.
    pub fn log(&self) -> (log: &Log<S>)
        ensures
            log@ == self@.log,
            self.inv() ==> log.wf(),
            log.infallible() == self.infallible(),
    {
        &self.log
    }

    /// Starts an election: the next term, a vote for the node itself
    /// saved, and a call for votes to all peers.
    pub(crate) fn campaign(self, timeout: u64) -> (r: Result<Node<S>, RaftError>)
        requires
            self.wf(),
            timeout_in_window(timeout),
        ensures
            as_expected(r, self@.campaign(timeout), self.infallible()),
    {
        if self.term == u64::MAX {
            return Err(RaftError::Exhausted);
        }
        let ghost before = self@;
        let id = self.id.clone();
        let mut node = match self.transfer_role(Candidate::with_timeout(id, timeout)) {
            Ok(node) => node,
            Err(e) => {
                return Err(e);
            },
        };
        node.term = node.term + 1;
        match node.log.save_metadata(node.term, Some(node.id.as_str())) {
            Ok(()) => {},
            Err(e) => {
                return Err(e);
            },
        }
        let last_index = node.log.last_index();
        let last_term = node.log.last_term();
        let _ = node.send(Address::Peers, Event::SolicitVote { last_index, last_term });
        proof {
            assert(node@.role->Candidate_votes =~= seq![before.id]);
            assert(node@ == before.campaign(timeout)->Ok_0);
        }
        Ok(Node::Candidate(node))
    }

    /// Takes the higher term of a message: saves it with no vote, and
    /// follows the sender where that is a peer.
    pub(crate) fn demote(self, msg: &Message, timeout: u64) -> (r: Result<
        RoleNode<S, Follower>,
        RaftError,
    >)
        requires
            self.wf(),
            timeout_in_window(timeout),
        ensures
            match r {
                Ok(node) => node.wf() && node.infallible() == self.infallible() && self@.demote(
                    msg@,
                    timeout,
                ) == Ok::<NodeView, RaftError>(node@),
                Err(e) => self.infallible() ==> self@.demote(msg@, timeout) == Err::<
                    NodeView,
                    RaftError,
                >(e),
            },
    {
        let leader = msg.from.peer();
        let mut node = match self.transfer_role(Follower::with_timeout(leader, None, timeout)) {
            Ok(node) => node,
            Err(e) => {
                return Err(e);
            },
        };
        match node.log.save_metadata(msg.term, None) {
            Ok(()) => {},
            Err(e) => {
                return Err(e);
            },
        }
        node.term = msg.term;
        Ok(node)
    }

    /// Puts into the list of instructions those that apply the entries
    /// after index `from` up to index `to`.
    pub(crate) fn emit_applications(&mut self, from: u64, to: u64) -> (r: Result<(), RaftError>)
        requires
            old(self).inv(),
            old(self)@.log.well_formed(),
            from <= to <= old(self)@.log.last_index(),
        ensures
            final(self).inv(),
            final(self).infallible() == old(self).infallible(),
            r is Ok ==> final(self)@ == (NodeView {
                instructions: old(self)@.instructions + applications(
                    old(self)@.log,
                    from as nat,
                    to as nat,
                ),
                ..old(self)@
            }),
            r is Err ==> final(self)@ == old(self)@,
            old(self).infallible() ==> r is Ok,
    {
        if from >= to {
            assert(self@.instructions + Seq::empty() =~= self@.instructions);
            return Ok(());
        }
        let range = Range::from(Bound::Included(from + 1), Bound::Included(to));
        let entries = match self.log.scan(range) {
            Ok(entries) => entries,
            Err(e) => {
                return Err(e);
            },
        };
        let ghost log = self@.log;
        let ghost start = instruction_views(&self.instructions);
        let ghost wanted = applications(log, from as nat, to as nat);
        assert(entry_views(&entries) == log.entries.subrange(from as int, to as int));
        let mut k: usize = 0;
        while k < entries.len()
            invariant
                k <= entries.len(),
                from < to <= log.entries.len() < u64::MAX,
                entries.len() == to - from,
                log == self@.log,
                log.well_formed(),
                entry_views(&entries) == log.entries.subrange(from as int, to as int),
                wanted == applications(log, from as nat, to as nat),
                instruction_views(&self.instructions) == start + wanted.take(k as int),
                self.inv(),
                self.infallible() == old(self).infallible(),
                self@ == (NodeView {
                    instructions: instruction_views(&self.instructions),
                    ..old(self)@
                }),
            decreases entries.len() - k,
        {
            let entry = &entries[k];
            assert(entry@ == entry_views(&entries)[k as int]);
            assert(entry@ == log.entries[from + k]);
            let command = match &entry.command {
                Some(bytes) => clone_bytes(bytes),
                None => Vec::new(),
            };
            assert(command@ =~= command_bytes(entry@.command));
            let ghost before = instruction_views(&self.instructions);
            let instruction = Instruction::Apply { index: entry.index, command };
            self.instructions.push(instruction);
            assert(instruction_views(&self.instructions) =~= before.push(instruction@));
            assert(instruction@ == wanted[k as int]);
            k += 1;
            assert(wanted.take(k as int) =~= wanted.take(k - 1).push(wanted[k - 1]));
            assert(instruction_views(&self.instructions) =~= start + wanted.take(k as int));
        }
        assert(wanted.take(entries.len() as int) =~= wanted);
        Ok(())
    }
}

/// A node: a candidate, a follower or a leader.
pub enum Node<S: Store> {
    Candidate(RoleNode<S, Candidate>),
    Follower(RoleNode<S, Follower>),
    Leader(RoleNode<S, Leader>),
}

/// Whether `r` is what the model `expected` of a node whose store never
/// fails where `infallible` holds: the same state, or the same error. With
/// a store that may fail, an error may come in place of either.
pub open spec fn as_expected<S: Store>(
    r: Result<Node<S>, RaftError>,
    expected: Result<NodeView, RaftError>,
    infallible: bool,
) -> bool {
    match r {
        Ok(node) => node.wf() && node.infallible() == infallible && expected == Ok::<
            NodeView,
            RaftError,
        >(node@),
        Err(e) => infallible ==> expected == Err::<NodeView, RaftError>(e),
    }
}

impl<S: Store> Node<S> {
    /// What the node holds.
    pub open spec fn view(&self) -> NodeView {
        match self {
            Node::Candidate(n) => n@,
            Node::Follower(n) => n@,
            Node::Leader(n) => n@,
        }
    }

    /// What ties the node to its store.
    pub open spec fn inv(&self) -> bool {
        match self {
            Node::Candidate(n) => n.inv(),
            Node::Follower(n) => n.inv(),
            Node::Leader(n) => n.inv(),
        }
    }

    /// The node's invariant.
    pub open spec fn wf(&self) -> bool {
        self.inv() && self@.well_formed()
    }

    /// Whether the store under the node's log never fails.
    pub open spec fn infallible(&self) -> bool {
        match self {
            Node::Candidate(n) => n.infallible(),
            Node::Follower(n) => n.infallible(),
            Node::Leader(n) => n.infallible(),
        }
    }

    /// A node as it starts, with a drawn election timeout: a follower
    /// without a leader, with the term and the vote that `log` has saved.
    /// `applied_index` is how far the state has applied the log: what the
    /// log has committed beyond it is put into the list of instructions.
    /// `peers` are the other nodes of the cluster.
    pub fn new(id: String, log: Log<S>, peers: Vec<String>, applied_index: u64) -> (r: Result<
        Node<S>,
        RaftError,
    >)
        requires
            log.wf(),
        ensures
            exists|timeout: u64| #[trigger]
                timeout_in_window(timeout) && as_expected(
                    r,
                    NodeView::start(id@, string_views(&peers), log@, applied_index, timeout),
                    log.infallible(),
                ),
    {
        let timeout = draw_election_timeout();
        Node::with_timeout(id, log, peers, applied_index, timeout)
    }

    /// A node as it starts, with the election timeout given.
    pub fn with_timeout(
        id: String,
        log: Log<S>,
        peers: Vec<String>,
        applied_index: u64,
        timeout: u64,
    ) -> (r: Result<Node<S>, RaftError>)
        requires
            log.wf(),
            timeout_in_window(timeout),
        ensures
            as_expected(
                r,
                NodeView::start(id@, string_views(&peers), log@, applied_index, timeout),
                log.infallible(),
            ),
    {
        let committed = log.commit_index();
        if applied_index > committed {
            return Err(RaftError::LogInconsistency);
        }
        let (term, voted_for) = match log.get_metadata() {
            Ok(pair) => pair,
            Err(e) => {
                return Err(e);
            },
        };
        let mut node = RoleNode {
            id,
            log,
            peers,
            term,
            outbox: Vec::new(),
            instructions: Vec::new(),
            role: Follower::with_timeout(None, voted_for, timeout),
        };
        assert(node@.outbox =~= Seq::empty());
        assert(node@.instructions =~= Seq::empty());
        match node.emit_applications(applied_index, committed) {
            Ok(()) => {},
            Err(e) => {
                return Err(e);
            },
        }
        assert(Seq::<crate::instruction::InstructionView>::empty() + applications(
            node@.log,
            applied_index as nat,
            committed as nat,
        ) =~= applications(node@.log, applied_index as nat, committed as nat));
        Ok(Node::Follower(node))
    }

    /// The node after one tick, with a drawn election timeout for the
    /// election that the tick may start.
    pub fn tick(self) -> (r: Result<Node<S>, RaftError>)
        requires
            self.wf(),
        ensures
            exists|timeout: u64| #[trigger]
                timeout_in_window(timeout) && as_expected(
                    r,
                    self@.tick(timeout),
                    self.infallible(),
                ),
    {
        let timeout = draw_election_timeout();
        self.tick_with(timeout)
    }

    /// The node after one tick, with the election timeout given for the
    /// election that the tick may start.
    pub fn tick_with(self, timeout: u64) -> (r: Result<Node<S>, RaftError>)
        requires
            self.wf(),
            timeout_in_window(timeout),
        ensures
            as_expected(r, self@.tick(timeout), self.infallible()),
    {
        match self {
            Node::Follower(f) => f.tick_with(timeout),
            Node::Leader(l) => l.tick(),
            Node::Candidate(c) => c.tick_with(timeout),
        }
    }

    /// The node after a message, with a drawn election timeout for the
    /// role that the message may lead to.
    pub fn step(self, msg: Message) -> (r: Result<Node<S>, RaftError>)
        requires
            self.wf(),
        ensures
            exists|timeout: u64| #[trigger]
                timeout_in_window(timeout) && as_expected(
                    r,
                    self@.step(msg@, timeout),
                    self.infallible(),
                ),
    {
        let timeout = draw_election_timeout();
        self.step_with(msg, timeout)
    }

    /// The node after a message, with the election timeout given for the
    /// role that the message may lead to.
    pub fn step_with(self, msg: Message, timeout: u64) -> (r: Result<Node<S>, RaftError>)
        requires
            self.wf(),
            timeout_in_window(timeout),
        ensures
            as_expected(r, self@.step(msg@, timeout), self.infallible()),
    {
        match self {
            Node::Follower(f) => f.step_with(msg, timeout),
            Node::Leader(l) => l.step_with(msg, timeout),
            Node::Candidate(c) => c.step_with(msg, timeout),
        }
    }

    /// Gives up the node for its log, from which a node can start again.
    pub fn into_log(self) -> (log: Log<S>)
        ensures
            log@ == self@.log,
            self.inv() ==> log.wf(),
            log.infallible() == self.infallible(),
    {
        match self {
            Node::Candidate(n) => n.log,
            Node::Follower(n) => n.log,
            Node::Leader(n) => n.log,
        }
    }

    /// Takes the messages that the node has to send, oldest first, and
    /// leaves its outbox empty.
    pub fn take_outbox(&mut self) -> (messages: Vec<Message>)
        ensures
            message_views(&messages) == old(self)@.outbox,
            final(self)@ == (NodeView { outbox: Seq::empty(), ..old(self)@ }),
            final(self).inv() == old(self).inv(),
            final(self).infallible() == old(self).infallible(),
    {
        let mut taken: Vec<Message> = Vec::new();
        match self {
            Node::Candidate(n) => {
                std::mem::swap(&mut n.outbox, &mut taken);
            },
            Node::Follower(n) => {
                std::mem::swap(&mut n.outbox, &mut taken);
            },
            Node::Leader(n) => {
                std::mem::swap(&mut n.outbox, &mut taken);
            },
        }
        assert(final(self)@.outbox =~= Seq::empty());
        taken
    }

    /// Takes the instructions that the node has for the driver, oldest
    /// first, and leaves its list empty.
    pub fn take_instructions(&mut self) -> (instructions: Vec<Instruction>)
        ensures
            instruction_views(&instructions) == old(self)@.instructions,
            final(self)@ == (NodeView { instructions: Seq::empty(), ..old(self)@ }),
            final(self).inv() == old(self).inv(),
            final(self).infallible() == old(self).infallible(),
    {
        let mut taken: Vec<Instruction> = Vec::new();
        match self {
            Node::Candidate(n) => {
                std::mem::swap(&mut n.instructions, &mut taken);
            },
            Node::Follower(n) => {
                std::mem::swap(&mut n.instructions, &mut taken);
            },
            Node::Leader(n) => {
                std::mem::swap(&mut n.instructions, &mut taken);
            },
        }
        assert(final(self)@.instructions =~= Seq::empty());
        taken
    }

    /// The role that a node's record is of.
    pub open spec fn role_of(view: NodeView) -> NodeRole {
        match view.role {
            RoleView::Candidate { .. } => NodeRole::Candidate,
            RoleView::Follower { .. } => NodeRole::Follower,
            RoleView::Leader { .. } => NodeRole::Leader,
        }
    }

    /// The role the node is in.
    pub fn role(&self) -> (role: NodeRole)
        ensures
            role == Self::role_of(self@),
    {
        match self {
            Node::Candidate(_) => NodeRole::Candidate,
            Node::Follower(_) => NodeRole::Follower,
            Node::Leader(_) => NodeRole::Leader,
        }
    }

    /// The node's id.
    pub fn id(&self) -> (id: &String)
        ensures
            id@ == self@.id,
    {
        match self {
            Node::Candidate(n) => n.id(),
            Node::Follower(n) => n.id(),
            Node::Leader(n) => n.id(),
        }
    }

    /// The node's term.
    pub fn term(&self) -> (term: u64)
        ensures
            term == self@.term,
    {
        match self {
            Node::Candidate(n) => n.term(),
            Node::Follower(n) => n.term(),
            Node::Leader(n) => n.term(),
        }
    }

    /// The node's log.
    pub fn log(&self) -> (log: &Log<S>)
        ensures
            log@ == self@.log,
            self.inv() ==> log.wf(),
            log.infallible() == self.infallible(),
    {
        match self {
            Node::Candidate(n) => n.log(),
            Node::Follower(n) => n.log(),
            Node::Leader(n) => n.log(),
        }
    }
}

} // verus!

use crate::error::RaftError;
use crate::instruction::{Instruction, instruction_views};
use crate::log::{Bound, Range, Store};
use crate::message::{Address, Event, Message};
use crate::node::{as_expected, draw_election_timeout, find_peer, Leader, Node, Role, RoleNode};
use crate::node::model::{HEARTBEAT_INTERVAL, position, reached, RoleView, timeout_in_window};
use vstd::prelude::*;

verus! {

impl Leader {
    /// The record of a leader that has just been elected: no tick since a
    /// heartbeat, and for each peer the index after `last_index` as the
    /// next to send and 0 as the last known to be held.
    pub fn new(peers: Vec<String>, last_index: u64) -> (leader: Leader)
        requires
            last_index < u64::MAX,
        ensures
            leader.view() == (RoleView::Leader {
                heartbeat_ticks: 0,
                next_index: Seq::new(peers@.len(), |i: int| (last_index + 1) as u64),
                match_index: Seq::new(peers@.len(), |i: int| 0u64),
            }),
    {
        let mut nexts: Vec<u64> = Vec::with_capacity(peers.len());
        let mut lasts: Vec<u64> = Vec::with_capacity(peers.len());
        let mut i: usize = 0;
        while i < peers.len()
            invariant
                i <= peers.len(),
                last_index < u64::MAX,
                nexts@ == Seq::new(i as nat, |k: int| (last_index + 1) as u64),
                lasts@ == Seq::new(i as nat, |k: int| 0u64),
            decreases peers.len() - i,
        {
            nexts.push(last_index + 1);
            lasts.push(0);
            i += 1;
            assert(nexts@ =~= Seq::new(i as nat, |k: int| (last_index + 1) as u64));
            assert(lasts@ =~= Seq::new(i as nat, |k: int| 0u64));
        }
        Leader { heartbeat_ticks: 0, peer_next_index: nexts, peer_last_index: lasts }
    }
}

/// How many of `match_index` have reached `index`.
fn count_reached(match_index: &Vec<u64>, index: u64) -> (count: u64)
    ensures
        count == reached(match_index@, index as nat),
        count <= match_index.len(),
{
    let mut count: u64 = 0;
    let mut i: usize = 0;
    assert(match_index@.take(0).len() == 0);
    while i < match_index.len()
        invariant
            i <= match_index.len(),
            count <= i,
            count == reached(match_index@.take(i as int), index as nat),
        decreases match_index.len() - i,
    {
        assert(match_index@.take(i + 1).drop_last() =~= match_index@.take(i as int));
        assert(match_index@.take(i + 1).last() == match_index@[i as int]);
        if match_index[i] >= index {
            count += 1;
        }
        i += 1;
    }
    assert(match_index@.take(match_index.len() as int) =~= match_index@);
    count
}

impl<S: Store> RoleNode<S, Leader> {
    /// The node after one tick: where the heartbeat interval has passed, a
    /// heartbeat to all peers.
    pub fn tick(self) -> (r: Result<Node<S>, RaftError>)
        requires
            self.wf(),
        ensures
            forall|timeout: u64| as_expected(r, #[trigger] self@.tick(timeout), self.infallible()),
    {
        let mut node = self;
        node.role.heartbeat_ticks = node.role.heartbeat_ticks + 1;
        if node.role.heartbeat_ticks >= HEARTBEAT_INTERVAL {
            node.role.heartbeat_ticks = 0;
            let commit_index = node.log.commit_index();
            let commit_term = node.log.commit_term();
            let _ = node.send(Address::Peers, Event::Heartbeat { commit_index, commit_term });
        }
        Ok(Node::Leader(node))
    }

    /// The node after a message, with a drawn election timeout for the
    /// follower that the message may make of it.
    pub fn step(self, msg: Message) -> (r: Result<Node<S>, RaftError>)
        requires
            self.wf(),
        ensures
            exists|timeout: u64| #[trigger]
                timeout_in_window(timeout) && as_expected(
                    r,
                    self@.step(msg@, timeout),
                    self.infallible(),
                ),
    {
        let timeout = draw_election_timeout();
        self.step_with(msg, timeout)
    }

    /// The node after a message, with the election timeout given for the
    /// follower that the message may make of it.
    pub fn step_with(self, msg: Message, timeout: u64) -> (r: Result<Node<S>, RaftError>)
        requires
            self.wf(),
            timeout_in_window(timeout),
        ensures
            as_expected(r, self@.step(msg@, timeout), self.infallible()),
    {
        if msg.event.from_client() {
            self.handle(msg)
        } else if msg.term > self.term {
            match self.demote(&msg, timeout) {
                Ok(follower) => follower.handle(msg),
                Err(e) => Err(e),
            }
        } else if msg.term < self.term {
            Ok(Node::Leader(self))
        } else {
            self.handle(msg)
        }
    }

    /// What a leader makes of a message of its own term, or of a client.
    pub(crate) fn handle(self, msg: Message) -> (r: Result<Node<S>, RaftError>)
        requires
            self.wf(),
        ensures
            as_expected(r, self@.step_leader(msg@), self.infallible()),
    {
        let ghost before = self@;
        let mut node = self;
        let Message { term, from, to, event } = msg;
        match (event, from) {
            (Event::ConfirmLeader { commit_index, has_committed }, Address::Peer(p)) => {
                let at = find_peer(&node.peers, &p);
                let ghost held = instruction_views(&node.instructions);
                let vote = Instruction::Vote {
                    term,
                    index: commit_index,
                    address: Address::Peer(p.clone()),
                };
                node.instructions.push(vote);
                assert(instruction_views(&node.instructions) =~= held.push(vote@));
                if !has_committed {
                    match node.replicate(&p) {
                        Ok(()) => {},
                        Err(e) => {
                            // A peer that the leader does not know gets no
                            // entries; only a failure of the store ends the step.
                            if at.is_some() {
                                return Err(e);
                            }
                        },
                    }
                }
                Ok(Node::Leader(node))
            },
            (Event::AcceptEntries { last_index }, Address::Peer(p)) => {
                match find_peer(&node.peers, &p) {
                    Some(i) => {
                        if last_index < u64::MAX {
                            let held = node.role.peer_last_index[i];
                            node.role.peer_last_index[i] = if held >= last_index {
                                held
                            } else {
                                last_index
                            };
                            node.role.peer_next_index[i] = last_index + 1;
                            match node.commit() {
                                Ok(_) => {},
                                Err(e) => {
                                    return Err(e);
                                },
                            }
                        }
                    },
                    None => {},
                }
                Ok(Node::Leader(node))
            },
            (Event::RejectEntries, Address::Peer(p)) => {
                match find_peer(&node.peers, &p) {
                    Some(i) => {
                        let next = node.role.peer_next_index[i];
                        node.role.peer_next_index[i] = if next > 1 {
                            next - 1
                        } else {
                            1
                        };
                        match node.replicate_at(i) {
                            Ok(()) => {},
                            Err(e) => {
                                return Err(e);
                            },
                        }
                    },
                    None => {},
                }
                Ok(Node::Leader(node))
            },
            (Event::ClientRequest { id, payload }, _) => {
                match node.log.append(node.term, Some(payload)) {
                    Ok(_) => {},
                    Err(e) => {
                        return Err(e);
                    },
                }
                let ghost appended = node@;
                let mut i: usize = 0;
                while i < node.peers.len()
                    invariant
                        i <= node.peers.len(),
                        node.wf(),
                        node.infallible() == self.infallible(),
                        node@.peers.len() == node.peers.len(),
                        appended.replicate_from(0) == node@.replicate_from(i as int),
                    decreases node.peers.len() - i,
                {
                    match node.replicate_at(i) {
                        Ok(()) => {},
                        Err(e) => {
                            return Err(e);
                        },
                    }
                    i += 1;
                }
                Ok(Node::Leader(node))
            },
            _ => Ok(Node::Leader(node)),
        }
    }

    /// Sends the peer `peer` the entries from its next index on, with the
    /// index and the term of the entry before them. Refused, with
    /// `InvalidTransition`, where the leader has no such peer: nothing is
    /// sent then, and the node is as it was.
    pub fn replicate(&mut self, peer: &String) -> (r: Result<(), RaftError>)
        requires
            old(self).wf(),
        ensures
            final(self).wf(),
            final(self).infallible() == old(self).infallible(),
            r is Err ==> final(self)@ == old(self)@,
            match position(old(self)@.peers, peer@) {
                Some(i) => {
                    &&& r is Ok ==> final(self)@ == old(self)@.replicate(i)
                    &&& old(self).infallible() ==> r is Ok
                },
                None => r == Err::<(), RaftError>(RaftError::InvalidTransition),
            },
    {
        match find_peer(&self.peers, peer) {
            Some(i) => self.replicate_at(i),
            None => Err(RaftError::InvalidTransition),
        }
    }

    /// Sends the peer at position `i` the entries from its next index on,
    /// with the index and the term of the entry before them.
    pub(crate) fn replicate_at(&mut self, i: usize) -> (r: Result<(), RaftError>)
        requires
            old(self).wf(),
            i < old(self)@.peers.len(),
        ensures
            final(self).wf(),
            final(self).infallible() == old(self).infallible(),
            r is Ok ==> final(self)@ == old(self)@.replicate(i as int),
            r is Err ==> final(self)@ == old(self)@,
            old(self).infallible() ==> r is Ok,
    {
        let next = self.role.peer_next_index[i];
        let base_index = if next > 0 {
            next - 1
        } else {
            0
        };
        let base_term = match self.log.get(base_index) {
            Ok(Some(entry)) => entry.term,
            Ok(None) => 0,
            Err(e) => {
                return Err(e);
            },
        };
        let last_index = self.log.last_index();
        let range = Range::from(Bound::Included(next), Bound::Included(last_index));
        let entries = match self.log.scan(range) {
            Ok(entries) => entries,
            Err(e) => {
                return Err(e);
            },
        };
        let peer = self.peers[i].clone();
        let _ = self.send(
            Address::Peer(peer),
            Event::ReplicateEntries { base_index, base_term, entries },
        );
        Ok(())
    }

    /// Whether the leader may commit the entry at `index`, which lies
    /// after its commit index and in its log.
    fn may_commit(&self, index: u64) -> (r: Result<bool, RaftError>)
        requires
            self.wf(),
            self@.log.commit_index < index <= self@.log.last_index(),
        ensures
            r matches Ok(may) ==> may == self@.may_commit(index as nat),
            self.infallible() ==> r is Ok,
    {
        let needed = self.watershed();
        let count = count_reached(&self.role.peer_last_index, index);
        if count < needed - 1 {
            return Ok(false);
        }
        match self.log.get(index) {
            Ok(Some(entry)) => Ok(entry.term == self.term),
            Ok(None) => Ok(false),
            Err(e) => Err(e),
        }
    }

    /// Moves the commit index to the greatest index that the leader may
    /// commit, if there is one, with the instructions that apply what that
    /// commits, and returns the commit index.
    pub(crate) fn commit(&mut self) -> (r: Result<u64, RaftError>)
        requires
            old(self).wf(),
        ensures
            final(self).wf(),
            final(self).infallible() == old(self).infallible(),
            r matches Ok(index) ==> index == final(self)@.log.commit_index && final(self)@ == ({
                let target = old(self)@.commit_target(old(self)@.log.last_index());
                if target > old(self)@.log.commit_index {
                    old(self)@.commit_to(target)
                } else {
                    old(self)@
                }
            }),
            old(self).infallible() ==> r is Ok,
    {
        let committed = self.log.commit_index();
        let mut index = self.log.last_index();
        let ghost before = self@;
        while index > committed
            invariant
                self.wf(),
                *self == *old(self),
                before == self@,
                committed == before.log.commit_index,
                committed <= index <= before.log.last_index(),
                before.commit_target(before.log.last_index()) == before.commit_target(index as nat),
            decreases index,
        {
            let may = match self.may_commit(index) {
                Ok(may) => may,
                Err(e) => {
                    return Err(e);
                },
            };
            if may {
                match self.emit_applications(committed, index) {
                    Ok(()) => {},
                    Err(e) => {
                        return Err(e);
                    },
                }
                match self.log.commit(index) {
                    Ok(_) => {},
                    Err(e) => {
                        return Err(e);
                    },
                }
                return Ok(index);
            }
            index -= 1;
        }
        Ok(committed)
    }
}

} // verus!

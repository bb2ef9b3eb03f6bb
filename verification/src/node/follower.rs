use crate::bytes::clone_optional_bytes;
use crate::error::RaftError;
use crate::log::Store;
use crate::log::log::{Entry, entry_views, EntryView, Log, LogView};
use crate::message::{Address, Event, Message};
use crate::node::{
    as_expected,
    clone_name,
    draw_election_timeout,
    Follower,
    name_view,
    Node,
    Role,
    RoleNode,
};
use crate::node::model::{accepts, agreeing, RoleView, splice, timeout_in_window};
use vstd::prelude::*;

verus! {

impl Follower {
    /// The record of a follower that has just been entered, with a drawn
    /// election timeout.
    pub fn new(leader: Option<String>, voted_for: Option<String>) -> (follower: Follower)
        ensures
            exists|timeout: u64| #[trigger]
                timeout_in_window(timeout) && follower.view() == (RoleView::Follower {
                    leader: name_view(leader),
                    voted_for: name_view(voted_for),
                    idle_ticks: 0,
                    election_timeout: timeout,
                }),
    {
        let timeout = draw_election_timeout();
        Follower::with_timeout(leader, voted_for, timeout)
    }

    /// The record of a follower that has just been entered, with the
    /// election timeout given.
    pub fn with_timeout(leader: Option<String>, voted_for: Option<String>, timeout: u64) -> (follower:
        Follower)
        ensures
            follower.view() == (RoleView::Follower {
                leader: name_view(leader),
                voted_for: name_view(voted_for),
                idle_ticks: 0,
                election_timeout: timeout,
            }),
    {
        Follower { leader, voted_for, leader_seen_ticks: 0, leader_seen_timeout: timeout }
    }
}

/// Whether the log takes `entries` after `base_index`.
fn check_accepts<S: Store>(
    log: &Log<S>,
    base_index: u64,
    base_term: u64,
    entries: &Vec<Entry>,
) -> (r: Result<bool, RaftError>)
    requires
        log.wf(),
    ensures
        r matches Ok(taken) ==> taken == accepts(log@, base_index, base_term, entry_views(entries)),
        log.infallible() ==> r is Ok,
{
    if base_index != 0 {
        match log.has(base_index, base_term) {
            Ok(true) => {},
            Ok(false) => {
                return Ok(false);
            },
            Err(e) => {
                return Err(e);
            },
        }
    }
    let len = entries.len() as u64;
    if len >= u64::MAX - base_index {
        return Ok(false);
    }
    let mut k: usize = 0;
    while k < entries.len()
        invariant
            k <= entries.len(),
            base_index + entries.len() < u64::MAX,
            forall|j: int|
                0 <= j < k ==> (#[trigger] entry_views(entries)[j]).index == base_index + 1 + j,
        decreases entries.len() - k,
    {
        if entries[k].index != base_index + 1 + k as u64 {
            assert(entry_views(entries)[k as int].index != base_index + 1 + k);
            return Ok(false);
        }
        k += 1;
    }
    Ok(true)
}

/// Facts on how far a log and entries agree.
proof fn lemma_agreeing(log: LogView, base_index: u64, entries: Seq<EntryView>, k: nat)
    requires
        k <= entries.len(),
        base_index + entries.len() < u64::MAX,
        base_index + k <= log.entries.len(),
        forall|j: int| 0 <= j < k ==> log.entries[base_index + j].term == (#[trigger] entries[j]).term,
    ensures
        agreeing(log, base_index, entries) == k + agreeing(
            log,
            (base_index + k) as u64,
            entries.skip(k as int),
        ),
    decreases k,
{
    if k == 0 {
        assert(entries.skip(0) =~= entries);
    } else {
        let rest = entries.drop_first();
        assert forall|j: int| 0 <= j < k - 1 implies log.entries[base_index + 1 + j].term == (
        #[trigger] rest[j]).term by {
            assert(rest[j] == entries[j + 1]);
        }
        lemma_agreeing(log, (base_index + 1) as u64, rest, (k - 1) as nat);
        assert(rest.skip(k - 1) =~= entries.skip(k as int));
        assert(log.entries[base_index as int].term == entries[0].term);
    }
}

/// Takes `entries` after `base_index` into the log: what the log holds and
/// agrees with stays; from the first entry that differs in term, what it
/// holds is dropped; the entries that it does not hold are appended.
fn splice_log<S: Store>(log: &mut Log<S>, base_index: u64, entries: &Vec<Entry>) -> (r: Result<
    (),
    RaftError,
>)
    requires
        old(log).wf(),
        base_index <= old(log)@.entries.len(),
        base_index + entries.len() < u64::MAX,
        forall|k: int|
            0 <= k < entries.len() ==> (#[trigger] entry_views(entries)[k]).index == base_index + 1
                + k,
    ensures
        final(log).wf(),
        final(log).infallible() == old(log).infallible(),
        r is Ok ==> splice(old(log)@, base_index, entry_views(entries)) == Ok::<
            LogView,
            RaftError,
        >(final(log)@),
        r matches Err(e) ==> old(log).infallible() ==> splice(
            old(log)@,
            base_index,
            entry_views(entries),
        ) == Err::<LogView, RaftError>(e),
{
    let ghost given = entry_views(entries);
    let ghost before = log@;
    let mut k: usize = 0;
    loop
        invariant_except_break
            k <= entries.len(),
            base_index + k <= before.entries.len(),
            forall|j: int|
                0 <= j < k ==> before.entries[base_index + j].term == (#[trigger] given[j]).term,
        invariant
            log.wf(),
            log@ == before,
            *log == *old(log),
            given == entry_views(entries),
            base_index + entries.len() < u64::MAX,
        ensures
            k <= entries.len(),
            base_index + k <= before.entries.len(),
            agreeing(before, base_index, given) == k,
        decreases entries.len() - k,
    {
        if k >= entries.len() {
            proof {
                lemma_agreeing(before, base_index, given, k as nat);
                assert(given.skip(k as int).len() == 0);
            }
            break ;
        }
        let index = base_index + 1 + k as u64;
        if index > log.last_index() {
            proof {
                lemma_agreeing(before, base_index, given, k as nat);
            }
            break ;
        }
        let held = match log.get(index) {
            Ok(Some(entry)) => entry,
            Ok(None) => {
                return Err(RaftError::LogInconsistency);
            },
            Err(e) => {
                return Err(e);
            },
        };
        assert(given[k as int].term == entries[k as int].term);
        if held.term != entries[k].term {
            proof {
                lemma_agreeing(before, base_index, given, k as nat);
                assert(given.skip(k as int)[0] == given[k as int]);
            }
            break ;
        }
        k += 1;
    }
    if k == entries.len() {
        return Ok(());
    }
    let keep = base_index + k as u64;
    match log.truncate(keep) {
        Ok(()) => {},
        Err(e) => {
            return Err(e);
        },
    }
    let ghost kept = before.entries.take(keep as int);
    assert(log@.entries =~= kept);
    let agreed = k;
    let mut j: usize = k;
    while j < entries.len()
        invariant
            agreed <= j <= entries.len(),
            agreed < entries.len(),
            before == old(log)@,
            agreeing(before, base_index, given) == agreed,
            keep == base_index + agreed,
            keep <= before.entries.len(),
            keep >= before.commit_index,
            kept == before.entries.take(keep as int),
            base_index + entries.len() < u64::MAX,
            given == entry_views(entries),
            forall|i: int|
                0 <= i < entries.len() ==> (#[trigger] given[i]).index == base_index + 1 + i,
            log.wf(),
            log.infallible() == old(log).infallible(),
            log@ == (LogView {
                entries: kept + given.subrange(agreed as int, j as int),
                ..before
            }),
            forall|i: int|
                agreed <= i < j ==> crate::codec::entry_encoding(
                    (#[trigger] given[i]).index,
                    given[i].term,
                    given[i].command,
                ) is Some,
        decreases entries.len() - j,
    {
        let entry = &entries[j];
        assert(entry@ == given[j as int]);
        let ghost held = log@;
        assert(held.last_index() + 1 == given[j as int].index);
        match log.append(entry.term, clone_optional_bytes(&entry.command)) {
            Ok(_) => {},
            Err(e) => {
                proof {
                    if old(log).infallible() {
                        assert(crate::codec::entry_encoding(
                            given[j as int].index,
                            given[j as int].term,
                            given[j as int].command,
                        ) is None);
                    }
                }
                return Err(e);
            },
        }
        proof {
            assert(log@.entries =~= kept + given.subrange(agreed as int, j + 1));
        }
        j += 1;
    }
    Ok(())
}

impl<S: Store> RoleNode<S, Follower> {
    /// The node after one tick, with a drawn election timeout for the
    /// election that the tick may start.
    pub fn tick(self) -> (r: Result<Node<S>, RaftError>)
        requires
            self.wf(),
        ensures
            exists|timeout: u64| #[trigger]
                timeout_in_window(timeout) && as_expected(
                    r,
                    self@.tick(timeout),
                    self.infallible(),
                ),
    {
        let timeout = draw_election_timeout();
        self.tick_with(timeout)
    }

    /// The node after one tick: one more idle tick, or, where that reaches
    /// the election timeout, a candidate with the election timeout given.
    pub fn tick_with(self, timeout: u64) -> (r: Result<Node<S>, RaftError>)
        requires
            self.wf(),
            timeout_in_window(timeout),
        ensures
            as_expected(r, self@.tick(timeout), self.infallible()),
    {
        if self.role.leader_seen_ticks + 1 >= self.role.leader_seen_timeout {
            self.campaign(timeout)
        } else {
            let mut node = self;
            node.role.leader_seen_ticks = node.role.leader_seen_ticks + 1;
            Ok(Node::Follower(node))
        }
    }

    /// The node after a message, with a drawn election timeout for the
    /// role that the message may lead to.
    pub fn step(self, msg: Message) -> (r: Result<Node<S>, RaftError>)
        requires
            self.wf(),
        ensures
            exists|timeout: u64| #[trigger]
                timeout_in_window(timeout) && as_expected(
                    r,
                    self@.step(msg@, timeout),
                    self.infallible(),
                ),
    {
        let timeout = draw_election_timeout();
        self.step_with(msg, timeout)
    }

    /// The node after a message, with the election timeout given for the
    /// role that the message may lead to.
    pub fn step_with(self, msg: Message, timeout: u64) -> (r: Result<Node<S>, RaftError>)
        requires
            self.wf(),
            timeout_in_window(timeout),
        ensures
            as_expected(r, self@.step(msg@, timeout), self.infallible()),
    {
        if msg.event.from_client() {
            self.handle(msg)
        } else if msg.term > self.term {
            match self.demote(&msg, timeout) {
                Ok(follower) => follower.handle(msg),
                Err(e) => Err(e),
            }
        } else if msg.term < self.term {
            Ok(Node::Follower(self))
        } else {
            self.handle(msg)
        }
    }

    /// What a follower makes of a message of its own term, or of a client.
    pub(crate) fn handle(self, msg: Message) -> (r: Result<Node<S>, RaftError>)
        requires
            self.wf(),
        ensures
            as_expected(r, self@.step_follower(msg@), self.infallible()),
    {
        let ghost before = self@;
        let mut node = self;
        let Message { term, from, to, event } = msg;
        match (event, from) {
            (Event::Heartbeat { commit_index, commit_term }, Address::Peer(p)) => {
                let held = match node.log.has(commit_index, commit_term) {
                    Ok(held) => held,
                    Err(e) => {
                        return Err(e);
                    },
                };
                node.role.leader = Some(p.clone());
                node.role.leader_seen_ticks = 0;
                assert(node@ == before.hear(p@));
                let committed = node.log.commit_index();
                if held && commit_index > committed {
                    match node.emit_applications(committed, commit_index) {
                        Ok(()) => {},
                        Err(e) => {
                            return Err(e);
                        },
                    }
                    match node.log.commit(commit_index) {
                        Ok(_) => {},
                        Err(e) => {
                            return Err(e);
                        },
                    }
                    assert(node@ == before.hear(p@).commit_to(commit_index as nat));
                }
                let _ = node.send(
                    Address::Peer(p),
                    Event::ConfirmLeader { commit_index, has_committed: held },
                );
                Ok(Node::Follower(node))
            },
            (Event::SolicitVote { last_index, last_term }, Address::Peer(p)) => {
                let free = match &node.role.voted_for {
                    Some(v) => *v == p,
                    None => true,
                };
                let own_term = node.log.last_term();
                let own_index = node.log.last_index();
                let fresh = last_term > own_term || (last_term == own_term && last_index
                    >= own_index);
                if free && fresh {
                    assert(before.grants(p@, last_index, last_term));
                    match node.log.save_metadata(node.term, Some(p.as_str())) {
                        Ok(()) => {},
                        Err(e) => {
                            return Err(e);
                        },
                    }
                    node.role.voted_for = Some(p.clone());
                    node.role.leader_seen_ticks = 0;
                    let _ = node.send(Address::Peer(p), Event::GrantVote);
                    Ok(Node::Follower(node))
                } else {
                    assert(!before.grants(p@, last_index, last_term));
                    Ok(Node::Follower(node))
                }
            },
            (Event::ReplicateEntries { base_index, base_term, entries }, Address::Peer(p)) => {
                let taken = match check_accepts(&node.log, base_index, base_term, &entries) {
                    Ok(taken) => taken,
                    Err(e) => {
                        return Err(e);
                    },
                };
                node.role.leader = Some(p.clone());
                node.role.leader_seen_ticks = 0;
                assert(node@ == before.hear(p@));
                if taken {
                    match splice_log(&mut node.log, base_index, &entries) {
                        Ok(()) => {},
                        Err(e) => {
                            return Err(e);
                        },
                    }
                    let last_index = node.log.last_index();
                    let _ = node.send(Address::Peer(p), Event::AcceptEntries { last_index });
                    Ok(Node::Follower(node))
                } else {
                    let _ = node.send(Address::Peer(p), Event::RejectEntries);
                    Ok(Node::Follower(node))
                }
            },
            (Event::ClientRequest { id, payload }, _) => {
                match clone_name(&node.role.leader) {
                    Some(leader) => {
                        let _ = node.send(
                            Address::Peer(leader),
                            Event::ClientRequest { id, payload },
                        );
                    },
                    None => {
                        let _ = node.send(
                            Address::Client,
                            Event::ClientResponse { id, result: None },
                        );
                    },
                }
                Ok(Node::Follower(node))
            },
            _ => Ok(Node::Follower(node)),
        }
    }
}

} // verus!

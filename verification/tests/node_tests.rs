use iraft::driver::{Driver, Outcome, MVCC};
use iraft::error::RaftError;
use iraft::instruction::Instruction;
use iraft::log::log::{Entry, Log};
use iraft::log::memory_store::MemoryStore;
use iraft::message::{Address, Event, Message};
use iraft::node::model::{ELECTION_TIMEOUT_MAX, ELECTION_TIMEOUT_MIN, HEARTBEAT_INTERVAL};
use iraft::node::{quorum_of, Node, NodeRole};
use iraft::transport::route;
use std::collections::VecDeque;

type TestNode = Node<MemoryStore>;

/// A cluster in one process: the nodes, the messages on their way, and
/// the instructions that each node has handed out.
struct Cluster {
    ids: Vec<String>,
    nodes: Vec<Option<TestNode>>,
    timeouts: Vec<u64>,
    cut: Vec<bool>,
    wire: VecDeque<(String, Message)>,
    instructions: Vec<Vec<Instruction>>,
}

fn peers_of(ids: &[String], me: usize) -> Vec<String> {
    ids.iter().enumerate().filter(|(i, _)| *i != me).map(|(_, id)| id.clone()).collect()
}

impl Cluster {
    fn new(names: &[&str], timeouts: &[u64]) -> Cluster {
        let ids: Vec<String> = names.iter().map(|n| n.to_string()).collect();
        let mut nodes = Vec::new();
        for i in 0..ids.len() {
            let log = Log::new(MemoryStore::new());
            let node = Node::with_timeout(ids[i].clone(), log, peers_of(&ids, i), 0, timeouts[i]).unwrap();
            nodes.push(Some(node));
        }
        let n = ids.len();
        Cluster {
            ids,
            nodes,
            timeouts: timeouts.to_vec(),
            cut: vec![false; n],
            wire: VecDeque::new(),
            instructions: (0..n).map(|_| Vec::new()).collect(),
        }
    }

    fn at(&self, name: &str) -> usize {
        self.ids.iter().position(|id| id == name).unwrap()
    }

    fn node(&self, name: &str) -> &TestNode {
        self.nodes[self.at(name)].as_ref().unwrap()
    }

    fn collect(&mut self, i: usize) {
        let node = self.nodes[i].as_mut().unwrap();
        let sent = node.take_outbox();
        let handed = node.take_instructions();
        self.instructions[i].extend(handed);
        let peers = peers_of(&self.ids, i);
        for msg in sent {
            for delivery in route(msg, &self.ids[i], &peers) {
                self.wire.push_back((delivery.peer, delivery.message));
            }
        }
    }

    fn tick(&mut self, name: &str) {
        let i = self.at(name);
        let node = self.nodes[i].take().unwrap();
        self.nodes[i] = Some(node.tick_with(self.timeouts[i]).unwrap());
        self.collect(i);
    }

    fn hand(&mut self, name: &str, msg: Message) {
        let i = self.at(name);
        let node = self.nodes[i].take().unwrap();
        self.nodes[i] = Some(node.step_with(msg, self.timeouts[i]).unwrap());
        self.collect(i);
    }

    /// Delivers what is on the wire, and what that leads to, until nothing
    /// is left. What is for a node that is cut off, or from one, is lost.
    fn settle(&mut self) {
        while let Some((to, msg)) = self.wire.pop_front() {
            let i = self.at(&to);
            let from_cut = match &msg.from {
                Address::Peer(p) => self.cut[self.at(p)],
                _ => false,
            };
            if self.cut[i] || from_cut || self.nodes[i].is_none() {
                continue;
            }
            self.hand(&to, msg);
        }
    }

    fn stop(&mut self, name: &str) {
        let i = self.at(name);
        self.nodes[i] = None;
        self.cut[i] = true;
    }

    fn vote_of(&self, name: &str) -> Option<String> {
        self.node(name).log().get_metadata().unwrap().1
    }

    fn leaders(&self) -> Vec<String> {
        let mut found = Vec::new();
        for (i, node) in self.nodes.iter().enumerate() {
            if let Some(n) = node {
                if n.role() == NodeRole::Leader {
                    found.push(self.ids[i].clone());
                }
            }
        }
        found
    }

    /// Ticks node "1" into an election and lets it win.
    fn elect_one(&mut self) {
        for _ in 0..self.timeouts[0] {
            self.tick("1");
        }
        self.settle();
        assert_eq!(self.leaders(), vec!["1".to_string()]);
    }
}

fn three() -> Cluster {
    Cluster::new(&["1", "2", "3"], &[2, 5, 5])
}

fn request(payload: &[u8]) -> Message {
    Message {
        term: 0,
        from: Address::Client,
        to: Address::Local,
        event: Event::ClientRequest { id: vec![1], payload: payload.to_vec() },
    }
}

fn from_peer(peer: &str, term: u64, event: Event) -> Message {
    Message { term, from: Address::Peer(peer.to_string()), to: Address::Local, event }
}

fn entry(index: u64, term: u64, command: &[u8]) -> Entry {
    Entry { index, term, command: Some(command.to_vec()) }
}

fn follower(id: &str, peers: &[&str]) -> TestNode {
    let peers = peers.iter().map(|p| p.to_string()).collect();
    Node::with_timeout(id.to_string(), Log::new(MemoryStore::new()), peers, 0, 3).unwrap()
}

fn step(node: TestNode, msg: Message) -> TestNode {
    node.step_with(msg, 3).unwrap()
}

#[test]
fn constants_are_the_fixed_ones() {
    assert_eq!(HEARTBEAT_INTERVAL, 1);
    assert_eq!(ELECTION_TIMEOUT_MIN, 2);
    assert_eq!(ELECTION_TIMEOUT_MAX, 5);
}

#[test]
fn cold_start_election() {
    let mut cluster = three();
    for name in ["1", "2", "3"] {
        assert_eq!(cluster.node(name).role(), NodeRole::Follower);
        assert_eq!(cluster.node(name).term(), 0);
        assert_eq!(cluster.node(name).log().last_index(), 0);
    }
    cluster.tick("1");
    assert_eq!(cluster.node("1").role(), NodeRole::Follower);
    cluster.tick("1");
    assert_eq!(cluster.node("1").role(), NodeRole::Candidate);
    assert_eq!(cluster.node("1").term(), 1);
    cluster.settle();
    for name in ["1", "2", "3"] {
        assert_eq!(cluster.node(name).term(), 1);
    }
    assert_eq!(cluster.leaders(), vec!["1".to_string()]);
    assert_eq!(cluster.node("2").role(), NodeRole::Follower);
    assert_eq!(cluster.node("3").role(), NodeRole::Follower);
    assert_eq!(cluster.vote_of("1"), Some("1".to_string()));
    assert_eq!(cluster.vote_of("2"), Some("1".to_string()));
    assert_eq!(cluster.vote_of("3"), Some("1".to_string()));
}

#[test]
fn heartbeat_suppression() {
    let mut cluster = three();
    cluster.elect_one();
    for _ in 0..(ELECTION_TIMEOUT_MAX - 1) {
        for _ in 0..HEARTBEAT_INTERVAL {
            cluster.tick("1");
        }
        cluster.settle();
        cluster.tick("2");
        cluster.tick("3");
        cluster.settle();
    }
    for name in ["1", "2", "3"] {
        assert_eq!(cluster.node(name).term(), 1);
    }
    assert_eq!(cluster.leaders(), vec!["1".to_string()]);
    assert_eq!(cluster.node("2").role(), NodeRole::Follower);
    assert_eq!(cluster.node("3").role(), NodeRole::Follower);
}

#[test]
fn followers_without_heartbeats_start_an_election() {
    let mut cluster = three();
    cluster.elect_one();
    for _ in 0..ELECTION_TIMEOUT_MAX {
        cluster.tick("2");
    }
    assert_eq!(cluster.node("2").role(), NodeRole::Candidate);
    assert_eq!(cluster.node("2").term(), 2);
}

#[test]
fn leader_crash_and_re_election() {
    let mut cluster = Cluster::new(&["1", "2", "3"], &[2, 3, 5]);
    cluster.elect_one();
    assert_eq!(cluster.node("1").log().commit_index(), 0);
    cluster.stop("1");
    let mut ticks = 0;
    while cluster.leaders().is_empty() {
        assert!(ticks < ELECTION_TIMEOUT_MAX + 1);
        cluster.tick("2");
        cluster.tick("3");
        cluster.settle();
        ticks += 1;
    }
    assert_eq!(cluster.leaders(), vec!["2".to_string()]);
    assert_eq!(cluster.node("2").term(), 2);
    assert_eq!(cluster.node("3").term(), 2);
    assert_eq!(cluster.node("3").role(), NodeRole::Follower);
    assert_eq!(cluster.vote_of("3"), Some("2".to_string()));
    assert_eq!(cluster.vote_of("2"), Some("2".to_string()));
}

#[test]
fn replication_with_a_lagging_follower() {
    let mut cluster = three();
    cluster.elect_one();
    let three_at = cluster.at("3");
    cluster.cut[three_at] = true;
    for command in [b"a", b"b", b"c"] {
        cluster.hand("1", request(command));
        cluster.settle();
    }
    let expected = vec![entry(1, 1, b"a"), entry(2, 1, b"b"), entry(3, 1, b"c")];
    for (k, e) in expected.iter().enumerate() {
        assert_eq!(cluster.node("1").log().get(k as u64 + 1).unwrap(), Some(e.clone()));
        assert_eq!(cluster.node("2").log().get(k as u64 + 1).unwrap(), Some(e.clone()));
    }
    assert_eq!(cluster.node("1").log().commit_index(), 3);
    assert_eq!(cluster.node("3").log().last_index(), 0);

    cluster.cut[three_at] = false;
    for _ in 0..3 {
        cluster.tick("1");
        cluster.settle();
    }
    for (k, e) in expected.iter().enumerate() {
        assert_eq!(cluster.node("3").log().get(k as u64 + 1).unwrap(), Some(e.clone()));
    }
    assert_eq!(cluster.node("3").log().last_index(), 3);
    assert_eq!(cluster.node("3").log().commit_index(), 3);
    assert_eq!(cluster.node("2").log().commit_index(), 3);

    let applies: Vec<Instruction> = cluster.instructions[three_at]
        .iter()
        .filter(|i| matches!(i, Instruction::Apply { .. }))
        .cloned()
        .collect();
    assert_eq!(
        applies,
        vec![
            Instruction::Apply { index: 1, command: b"a".to_vec() },
            Instruction::Apply { index: 2, command: b"b".to_vec() },
            Instruction::Apply { index: 3, command: b"c".to_vec() },
        ]
    );
    let mut driver = Driver::new(MVCC::new(), 2);
    for (k, instruction) in applies.into_iter().enumerate() {
        let done = driver.execute(instruction).unwrap();
        assert_eq!(done, Outcome::Applied { index: k as u64 + 1, result: Some(vec![]) });
    }
    assert_eq!(driver.applied_index(), 3);
}

#[test]
fn split_vote() {
    let mut cluster = Cluster::new(&["1", "2", "3"], &[2, 3, 3]);
    cluster.elect_one();
    cluster.stop("1");
    for _ in 0..3 {
        cluster.tick("2");
        cluster.tick("3");
    }
    assert_eq!(cluster.node("2").role(), NodeRole::Candidate);
    assert_eq!(cluster.node("3").role(), NodeRole::Candidate);
    assert_eq!(cluster.node("2").term(), 2);
    assert_eq!(cluster.node("3").term(), 2);
    cluster.settle();
    assert!(cluster.leaders().is_empty());
    assert_eq!(cluster.vote_of("2"), Some("2".to_string()));
    assert_eq!(cluster.vote_of("3"), Some("3".to_string()));

    cluster.timeouts = vec![2, 2, 5];
    let mut ticks = 0;
    while cluster.leaders().is_empty() {
        assert!(ticks < 2 * ELECTION_TIMEOUT_MAX);
        cluster.tick("2");
        cluster.tick("3");
        cluster.settle();
        ticks += 1;
    }
    assert_eq!(cluster.leaders().len(), 1);
    let leader = cluster.leaders()[0].clone();
    assert!(cluster.node(&leader).term() >= 3);
    assert!(cluster.node("2").term() >= 3 || cluster.node("3").term() >= 3);
}

#[test]
fn stale_term_rejection() {
    let mut log = Log::new(MemoryStore::new());
    log.save_metadata(4, None).unwrap();
    let node = Node::with_timeout("1".to_string(), log, vec!["2".to_string(), "3".to_string()], 0, 2).unwrap();
    assert_eq!(node.term(), 4);
    let node = node.tick_with(2).unwrap().tick_with(2).unwrap();
    assert_eq!(node.term(), 5);
    let mut node = step(node, from_peer("2", 5, Event::GrantVote));
    assert_eq!(node.role(), NodeRole::Leader);
    node.take_outbox();
    node.take_instructions();

    let mut node = step(node, from_peer("3", 3, Event::Heartbeat { commit_index: 0, commit_term: 0 }));
    assert_eq!(node.role(), NodeRole::Leader);
    assert_eq!(node.term(), 5);
    assert!(node.take_outbox().is_empty());
    assert!(node.take_instructions().is_empty());
    assert_eq!(node.log().get_metadata().unwrap(), (5, Some("1".to_string())));
}

#[test]
fn a_higher_term_demotes_and_is_saved_without_a_vote() {
    let mut cluster = three();
    cluster.elect_one();
    let leader = cluster.nodes[0].take().unwrap();
    let mut node = step(leader, from_peer("3", 7, Event::Heartbeat { commit_index: 0, commit_term: 0 }));
    assert_eq!(node.role(), NodeRole::Follower);
    assert_eq!(node.term(), 7);
    assert_eq!(node.log().get_metadata().unwrap(), (7, None));
    let sent = node.take_outbox();
    assert_eq!(
        sent,
        vec![Message {
            term: 7,
            from: Address::Local,
            to: Address::Peer("3".to_string()),
            event: Event::ConfirmLeader { commit_index: 0, has_committed: true },
        }]
    );
}

#[test]
fn a_follower_votes_once_in_a_term() {
    let node = follower("1", &["2", "3"]);
    let ask = |peer: &str, term: u64| from_peer(peer, term, Event::SolicitVote { last_index: 0, last_term: 0 });
    let mut node = step(node, ask("2", 1));
    assert_eq!(node.log().get_metadata().unwrap(), (1, Some("2".to_string())));
    let granted = node.take_outbox();
    assert_eq!(
        granted,
        vec![Message { term: 1, from: Address::Local, to: Address::Peer("2".to_string()), event: Event::GrantVote }]
    );
    let mut node = step(node, ask("3", 1));
    assert!(node.take_outbox().is_empty());
    assert_eq!(node.log().get_metadata().unwrap(), (1, Some("2".to_string())));
    let mut node = step(node, ask("2", 1));
    assert_eq!(node.take_outbox().len(), 1);
    let mut node = step(node, ask("3", 2));
    assert_eq!(node.take_outbox()[0].event, Event::GrantVote);
    assert_eq!(node.log().get_metadata().unwrap(), (2, Some("3".to_string())));
}

#[test]
fn a_follower_votes_only_for_a_log_as_up_to_date_as_its_own() {
    let mut log = Log::new(MemoryStore::new());
    log.append(1, None).unwrap();
    log.append(2, None).unwrap();
    let node = Node::with_timeout("1".to_string(), log, vec!["2".to_string()], 0, 3).unwrap();
    let ask = |last_index: u64, last_term: u64| from_peer("2", 0, Event::SolicitVote { last_index, last_term });
    let mut node = step(node, ask(5, 1));
    assert!(node.take_outbox().is_empty());
    let mut node = step(node, ask(1, 2));
    assert!(node.take_outbox().is_empty());
    assert_eq!(node.log().get_metadata().unwrap(), (0, None));
    let mut node = step(node, ask(2, 2));
    assert_eq!(node.take_outbox()[0].event, Event::GrantVote);
    let node2 = {
        let mut log = Log::new(MemoryStore::new());
        log.append(2, None).unwrap();
        Node::with_timeout("1".to_string(), log, vec!["2".to_string()], 0, 3).unwrap()
    };
    let mut node2 = step(node2, ask(1, 3));
    assert_eq!(node2.take_outbox()[0].event, Event::GrantVote);
}

#[test]
fn a_candidate_needs_a_strict_majority() {
    let node = follower("1", &["2", "3", "4", "5"]);
    let node = node.tick_with(2).unwrap().tick_with(2).unwrap().tick_with(2).unwrap();
    assert_eq!(node.role(), NodeRole::Candidate);
    let node = step(node, from_peer("2", 1, Event::GrantVote));
    assert_eq!(node.role(), NodeRole::Candidate);
    let node = step(node, from_peer("2", 1, Event::GrantVote));
    assert_eq!(node.role(), NodeRole::Candidate);
    let mut node = step(node, from_peer("3", 1, Event::GrantVote));
    assert_eq!(node.role(), NodeRole::Leader);
    let sent = node.take_outbox();
    assert_eq!(sent.len(), 2);
    assert_eq!(sent[0].event, Event::SolicitVote { last_index: 0, last_term: 0 });
    assert_eq!(sent[0].to, Address::Peers);
    assert_eq!(sent[1].event, Event::Heartbeat { commit_index: 0, commit_term: 0 });
    assert_eq!(sent[1].to, Address::Peers);
    assert_eq!(sent[1].term, 1);

    let four = follower("1", &["2", "3", "4"]).tick_with(2).unwrap().tick_with(2).unwrap().tick_with(2).unwrap();
    let four = step(four, from_peer("2", 1, Event::GrantVote));
    assert_eq!(four.role(), NodeRole::Candidate);
    let four = step(four, from_peer("3", 1, Event::GrantVote));
    assert_eq!(four.role(), NodeRole::Leader);
}

#[test]
fn a_candidate_yields_to_a_leader_of_its_term_and_keeps_its_vote() {
    let node = follower("1", &["2", "3"]).tick_with(2).unwrap().tick_with(2).unwrap().tick_with(2).unwrap();
    assert_eq!(node.role(), NodeRole::Candidate);
    let mut node = step(node, from_peer("2", 1, Event::Heartbeat { commit_index: 0, commit_term: 0 }));
    assert_eq!(node.role(), NodeRole::Follower);
    assert_eq!(node.term(), 1);
    assert_eq!(node.log().get_metadata().unwrap(), (1, Some("1".to_string())));
    let sent = node.take_outbox();
    assert_eq!(sent.last().unwrap().event, Event::ConfirmLeader { commit_index: 0, has_committed: true });
    let mut node = step(node, from_peer("3", 1, Event::SolicitVote { last_index: 9, last_term: 9 }));
    assert!(node.take_outbox().is_empty());
}

#[test]
fn a_candidate_starts_over_when_its_election_times_out() {
    let node = follower("1", &["2", "3"]).tick_with(4).unwrap().tick_with(4).unwrap().tick_with(4).unwrap();
    assert_eq!(node.term(), 1);
    let node = node.tick_with(2).unwrap().tick_with(2).unwrap().tick_with(2).unwrap();
    assert_eq!(node.role(), NodeRole::Candidate);
    assert_eq!(node.term(), 1);
    let mut node = node.tick_with(2).unwrap();
    assert_eq!(node.term(), 2);
    assert_eq!(node.role(), NodeRole::Candidate);
    assert_eq!(node.log().get_metadata().unwrap(), (2, Some("1".to_string())));
    let sent = node.take_outbox();
    assert_eq!(sent.len(), 2);
    assert_eq!(sent[1].term, 2);
    let node = node.tick_with(5).unwrap().tick_with(5).unwrap();
    assert_eq!(node.term(), 3);
}

fn replicate(base_index: u64, base_term: u64, entries: Vec<Entry>) -> Message {
    from_peer("2", 0, Event::ReplicateEntries { base_index, base_term, entries })
}

fn reply(node: &mut TestNode) -> Event {
    node.take_outbox().pop().unwrap().event
}

#[test]
fn a_follower_appends_what_matches_and_rejects_what_does_not() {
    let node = follower("1", &["2"]);
    let mut node = step(node, replicate(0, 0, vec![entry(1, 1, b"a"), entry(2, 1, b"b")]));
    assert_eq!(reply(&mut node), Event::AcceptEntries { last_index: 2 });
    assert_eq!(node.log().get(2).unwrap(), Some(entry(2, 1, b"b")));

    let mut node = step(node, replicate(3, 1, vec![entry(4, 1, b"d")]));
    assert_eq!(reply(&mut node), Event::RejectEntries);
    let mut node = step(node, replicate(2, 2, vec![entry(3, 2, b"c")]));
    assert_eq!(reply(&mut node), Event::RejectEntries);
    let mut node = step(node, replicate(2, 1, vec![entry(4, 1, b"d")]));
    assert_eq!(reply(&mut node), Event::RejectEntries);
    assert_eq!(node.log().last_index(), 2);

    let mut node = step(node, replicate(2, 1, vec![]));
    assert_eq!(reply(&mut node), Event::AcceptEntries { last_index: 2 });
    let mut node = step(node, replicate(1, 1, vec![entry(2, 1, b"b"), entry(3, 1, b"c")]));
    assert_eq!(reply(&mut node), Event::AcceptEntries { last_index: 3 });
    assert_eq!(node.log().get(3).unwrap(), Some(entry(3, 1, b"c")));
    let mut node = step(node, replicate(0, 9, vec![entry(1, 1, b"a")]));
    assert_eq!(reply(&mut node), Event::AcceptEntries { last_index: 3 });
}

#[test]
fn a_follower_replaces_entries_of_another_term() {
    let node = follower("1", &["2"]);
    let node = step(node, replicate(0, 0, vec![entry(1, 1, b"a"), entry(2, 1, b"x"), entry(3, 1, b"y")]));
    let mut node = step(node, replicate(1, 1, vec![entry(2, 2, b"b")]));
    assert_eq!(reply(&mut node), Event::AcceptEntries { last_index: 2 });
    assert_eq!(node.log().last_index(), 2);
    assert_eq!(node.log().get(1).unwrap(), Some(entry(1, 1, b"a")));
    assert_eq!(node.log().get(2).unwrap(), Some(entry(2, 2, b"b")));
    assert_eq!(node.log().get(3).unwrap(), None);
}

#[test]
fn a_follower_never_drops_a_committed_entry() {
    let node = follower("1", &["2"]);
    let node = step(node, replicate(0, 0, vec![entry(1, 1, b"a"), entry(2, 1, b"b")]));
    let node = step(node, from_peer("2", 0, Event::Heartbeat { commit_index: 2, commit_term: 1 }));
    assert_eq!(node.log().commit_index(), 2);
    let r = node.step_with(replicate(1, 1, vec![entry(2, 3, b"z")]), 3);
    assert_eq!(r.err(), Some(RaftError::LogInconsistency));
}

#[test]
fn a_follower_commits_with_the_leader_and_hands_out_what_to_apply() {
    let node = follower("1", &["2"]);
    let mut node = step(node, replicate(0, 0, vec![entry(1, 1, b"a"), Entry { index: 2, term: 1, command: None }]));
    node.take_outbox();
    let mut node = step(node, from_peer("2", 0, Event::Heartbeat { commit_index: 3, commit_term: 1 }));
    assert_eq!(reply(&mut node), Event::ConfirmLeader { commit_index: 3, has_committed: false });
    assert_eq!(node.log().commit_index(), 0);
    let mut node = step(node, from_peer("2", 0, Event::Heartbeat { commit_index: 1, commit_term: 2 }));
    assert_eq!(reply(&mut node), Event::ConfirmLeader { commit_index: 1, has_committed: false });
    let mut node = step(node, from_peer("2", 0, Event::Heartbeat { commit_index: 2, commit_term: 1 }));
    assert_eq!(reply(&mut node), Event::ConfirmLeader { commit_index: 2, has_committed: true });
    assert_eq!(node.log().commit_index(), 2);
    assert_eq!(
        node.take_instructions(),
        vec![
            Instruction::Apply { index: 1, command: b"a".to_vec() },
            Instruction::Apply { index: 2, command: vec![] },
        ]
    );
    let mut node = step(node, from_peer("2", 0, Event::Heartbeat { commit_index: 1, commit_term: 1 }));
    assert_eq!(reply(&mut node), Event::ConfirmLeader { commit_index: 1, has_committed: true });
    assert_eq!(node.log().commit_index(), 2);
    assert!(node.take_instructions().is_empty());
}

fn leader_of_three() -> TestNode {
    let node = follower("1", &["2", "3"]).tick_with(2).unwrap().tick_with(2).unwrap().tick_with(2).unwrap();
    let mut node = step(node, from_peer("2", 1, Event::GrantVote));
    assert_eq!(node.role(), NodeRole::Leader);
    node.take_outbox();
    node
}

#[test]
fn a_leader_beats_every_heartbeat_interval() {
    let mut node = leader_of_three();
    for _ in 0..3 {
        node = node.tick().unwrap();
        let sent = node.take_outbox();
        assert_eq!(
            sent,
            vec![Message {
                term: 1,
                from: Address::Local,
                to: Address::Peers,
                event: Event::Heartbeat { commit_index: 0, commit_term: 0 },
            }]
        );
    }
}

#[test]
fn a_leader_appends_a_request_and_sends_it_to_every_peer() {
    let node = leader_of_three();
    let mut node = step(node, request(b"a"));
    assert_eq!(node.log().get(1).unwrap(), Some(entry(1, 1, b"a")));
    let sent = node.take_outbox();
    let expected = |peer: &str| Message {
        term: 1,
        from: Address::Local,
        to: Address::Peer(peer.to_string()),
        event: Event::ReplicateEntries { base_index: 0, base_term: 0, entries: vec![entry(1, 1, b"a")] },
    };
    assert_eq!(sent, vec![expected("2"), expected("3")]);
}

#[test]
fn a_leader_commits_what_a_quorum_holds_in_its_term() {
    let node = leader_of_three();
    let node = step(node, request(b"a"));
    let mut node = step(node, request(b"b"));
    node.take_outbox();
    assert_eq!(node.log().commit_index(), 0);
    let mut node = step(node, from_peer("2", 1, Event::AcceptEntries { last_index: 1 }));
    assert_eq!(node.log().commit_index(), 1);
    assert_eq!(node.take_instructions(), vec![Instruction::Apply { index: 1, command: b"a".to_vec() }]);
    let node = step(node, from_peer("9", 1, Event::AcceptEntries { last_index: 2 }));
    assert_eq!(node.log().commit_index(), 1);
    let node = step(node, from_peer("3", 1, Event::AcceptEntries { last_index: u64::MAX }));
    assert_eq!(node.log().commit_index(), 1);
    let mut node = step(node, from_peer("3", 1, Event::AcceptEntries { last_index: 2 }));
    assert_eq!(node.log().commit_index(), 2);
    assert_eq!(node.log().commit_term(), 1);
    assert_eq!(node.take_instructions(), vec![Instruction::Apply { index: 2, command: b"b".to_vec() }]);
    let mut node = node.tick().unwrap();
    assert_eq!(reply(&mut node), Event::Heartbeat { commit_index: 2, commit_term: 1 });
}

#[test]
fn a_leader_does_not_commit_entries_of_an_earlier_term_alone() {
    let mut log = Log::new(MemoryStore::new());
    log.append(1, Some(b"old".to_vec())).unwrap();
    log.save_metadata(1, None).unwrap();
    let node = Node::with_timeout("1".to_string(), log, vec!["2".to_string(), "3".to_string()], 0, 2).unwrap();
    let node = node.tick_with(2).unwrap().tick_with(2).unwrap();
    let node = step(node, from_peer("2", 2, Event::GrantVote));
    assert_eq!(node.role(), NodeRole::Leader);
    assert_eq!(node.term(), 2);
    let node = step(node, from_peer("2", 2, Event::AcceptEntries { last_index: 1 }));
    assert_eq!(node.log().commit_index(), 0);
    let node = step(node, request(b"new"));
    let node = step(node, from_peer("2", 2, Event::AcceptEntries { last_index: 2 }));
    assert_eq!(node.log().commit_index(), 2);
}

#[test]
fn a_leader_steps_back_on_a_reject_and_sends_again() {
    let mut log = Log::new(MemoryStore::new());
    log.append(1, Some(b"a".to_vec())).unwrap();
    log.append(1, Some(b"b".to_vec())).unwrap();
    let node = Node::with_timeout("1".to_string(), log, vec!["2".to_string(), "3".to_string()], 0, 2).unwrap();
    let node = node.tick_with(2).unwrap().tick_with(2).unwrap();
    let mut node = step(node, from_peer("2", 1, Event::GrantVote));
    node.take_outbox();
    let mut node = step(node, from_peer("3", 1, Event::ConfirmLeader { commit_index: 0, has_committed: false }));
    assert_eq!(
        node.take_instructions(),
        vec![Instruction::Vote { term: 1, index: 0, address: Address::Peer("3".to_string()) }]
    );
    assert_eq!(reply(&mut node), Event::ReplicateEntries { base_index: 2, base_term: 1, entries: vec![] });
    let mut node = step(node, from_peer("3", 1, Event::RejectEntries));
    assert_eq!(
        reply(&mut node),
        Event::ReplicateEntries { base_index: 1, base_term: 1, entries: vec![entry(2, 1, b"b")] }
    );
    let mut node = step(node, from_peer("3", 1, Event::RejectEntries));
    let all = vec![entry(1, 1, b"a"), entry(2, 1, b"b")];
    assert_eq!(reply(&mut node), Event::ReplicateEntries { base_index: 0, base_term: 0, entries: all.clone() });
    let mut node = step(node, from_peer("3", 1, Event::RejectEntries));
    assert_eq!(reply(&mut node), Event::ReplicateEntries { base_index: 0, base_term: 0, entries: all });
    let mut node = step(node, from_peer("3", 1, Event::ConfirmLeader { commit_index: 0, has_committed: true }));
    assert!(node.take_outbox().is_empty());
    assert_eq!(node.take_instructions().len(), 1);
    let mut node = step(node, from_peer("8", 1, Event::RejectEntries));
    assert!(node.take_outbox().is_empty());
}

#[test]
fn a_request_goes_to_the_leader_or_is_answered_with_nothing() {
    let node = follower("1", &["2"]);
    let mut node = step(node, request(b"a"));
    let answer = Event::ClientResponse { id: vec![1], result: None };
    assert_eq!(
        node.take_outbox(),
        vec![Message { term: 0, from: Address::Local, to: Address::Client, event: answer.clone() }]
    );
    let mut node = step(node, from_peer("2", 0, Event::Heartbeat { commit_index: 0, commit_term: 0 }));
    node.take_outbox();
    let mut node = step(node, request(b"a"));
    assert_eq!(
        node.take_outbox(),
        vec![Message {
            term: 0,
            from: Address::Local,
            to: Address::Peer("2".to_string()),
            event: Event::ClientRequest { id: vec![1], payload: b"a".to_vec() },
        }]
    );
    let candidate = node.tick_with(2).unwrap().tick_with(2).unwrap().tick_with(2).unwrap();
    assert_eq!(candidate.role(), NodeRole::Candidate);
    let mut candidate = step(candidate, request(b"a"));
    assert_eq!(candidate.take_outbox().pop().unwrap().event, answer);
    assert_eq!(candidate.term(), 1);
}

#[test]
fn a_node_starts_from_what_its_log_has_saved() {
    let mut log = Log::new(MemoryStore::new());
    log.append(1, Some(b"a".to_vec())).unwrap();
    log.append(1, None).unwrap();
    log.append(2, Some(b"c".to_vec())).unwrap();
    log.commit(3).unwrap();
    log.save_metadata(2, Some("3")).unwrap();
    let mut node = Node::with_timeout("1".to_string(), log, vec!["2".to_string(), "3".to_string()], 1, 4).unwrap();
    assert_eq!(node.role(), NodeRole::Follower);
    assert_eq!(node.term(), 2);
    assert_eq!(node.id(), "1");
    assert_eq!(
        node.take_instructions(),
        vec![
            Instruction::Apply { index: 2, command: vec![] },
            Instruction::Apply { index: 3, command: b"c".to_vec() },
        ]
    );
    assert!(node.take_outbox().is_empty());
    let mut node = step(node, from_peer("2", 2, Event::SolicitVote { last_index: 9, last_term: 9 }));
    assert!(node.take_outbox().is_empty());
}

#[test]
fn a_node_does_not_start_behind_its_state() {
    let mut log = Log::new(MemoryStore::new());
    log.append(1, None).unwrap();
    let r = Node::with_timeout("1".to_string(), log, vec![], 1, 4);
    assert_eq!(r.err(), Some(RaftError::LogInconsistency));
}

#[test]
fn the_last_term_cannot_be_followed_by_an_election() {
    let node = follower("1", &["2"]);
    let node = step(node, from_peer("2", u64::MAX, Event::GrantVote));
    assert_eq!(node.term(), u64::MAX);
    let node = node.tick_with(2).unwrap();
    let node = node.tick_with(2).unwrap();
    let r = node.tick_with(2);
    assert_eq!(r.err(), Some(RaftError::Exhausted));
}

#[test]
fn drawn_timeouts_lie_in_the_election_window() {
    for _ in 0..50 {
        let mut node = Node::new("1".to_string(), Log::new(MemoryStore::new()), vec!["2".to_string()], 0).unwrap();
        let mut ticks = 0;
        while node.role() == NodeRole::Follower {
            node = node.tick().unwrap();
            ticks += 1;
            assert!(ticks <= ELECTION_TIMEOUT_MAX);
        }
        assert!(ticks >= ELECTION_TIMEOUT_MIN);
        let mut more = 0;
        while node.term() == 1 {
            node = node.tick().unwrap();
            more += 1;
            assert!(more <= ELECTION_TIMEOUT_MAX);
        }
        assert!(more >= ELECTION_TIMEOUT_MIN);
        let mut node = node.step(from_peer("2", 5, Event::Heartbeat { commit_index: 0, commit_term: 0 })).unwrap();
        assert_eq!(node.role(), NodeRole::Follower);
        assert_eq!(node.take_outbox().len(), 3);
    }
}

#[test]
fn the_term_never_goes_down_and_a_vote_is_kept() {
    let node = follower("1", &["2", "3"]);
    let inputs = vec![
        from_peer("2", 3, Event::SolicitVote { last_index: 0, last_term: 0 }),
        from_peer("3", 3, Event::SolicitVote { last_index: 5, last_term: 5 }),
        from_peer("3", 2, Event::Heartbeat { commit_index: 0, commit_term: 0 }),
        from_peer("3", 3, Event::Heartbeat { commit_index: 0, commit_term: 0 }),
        from_peer("3", 3, Event::ReplicateEntries { base_index: 0, base_term: 0, entries: vec![entry(1, 3, b"a")] }),
        from_peer("2", 1, Event::GrantVote),
        request(b"x"),
    ];
    let mut node = node;
    let mut term = 0;
    for msg in inputs {
        node = step(node, msg);
        assert!(node.term() >= term);
        term = node.term();
        assert_eq!(node.log().get_metadata().unwrap(), (3, Some("2".to_string())));
    }
}

#[test]
fn a_node_that_starts_again_keeps_its_term_its_vote_and_its_log() {
    let node = leader_of_three();
    let node = step(node, request(b"a"));
    let node = step(node, from_peer("2", 1, Event::AcceptEntries { last_index: 1 }));
    assert_eq!(node.log().commit_index(), 1);
    let log = node.into_log();
    let mut again =
        Node::with_timeout("1".to_string(), log, vec!["2".to_string(), "3".to_string()], 0, 3).unwrap();
    assert_eq!(again.role(), NodeRole::Follower);
    assert_eq!(again.term(), 1);
    assert_eq!(again.log().get_metadata().unwrap(), (1, Some("1".to_string())));
    assert_eq!(again.log().get(1).unwrap(), Some(entry(1, 1, b"a")));
    assert_eq!(again.take_instructions(), vec![Instruction::Apply { index: 1, command: b"a".to_vec() }]);
    let mut again = step(again, from_peer("3", 1, Event::SolicitVote { last_index: 5, last_term: 5 }));
    assert!(again.take_outbox().is_empty());
}

#[test]
fn a_leader_sends_no_entries_to_a_peer_it_does_not_have() {
    let node = step(leader_of_three(), request(b"a"));
    let mut leader = match node {
        Node::Leader(leader) => leader,
        _ => panic!("no leader"),
    };
    assert_eq!(leader.replicate(&"9".to_string()), Err(RaftError::InvalidTransition));
    assert_eq!(leader.replicate(&"1".to_string()), Err(RaftError::InvalidTransition));
    let mut node = Node::Leader(leader);
    assert_eq!(node.role(), NodeRole::Leader);
    assert_eq!(node.term(), 1);
    assert_eq!(node.log().last_index(), 1);
    assert_eq!(node.take_outbox().len(), 2);
    assert!(node.take_instructions().is_empty());
}

#[test]
fn a_leader_sends_a_peer_the_entries_from_its_next_index_on() {
    let mut node = step(leader_of_three(), request(b"a"));
    node.take_outbox();
    let mut leader = match node {
        Node::Leader(leader) => leader,
        _ => panic!("no leader"),
    };
    assert_eq!(leader.replicate(&"3".to_string()), Ok(()));
    let mut node = Node::Leader(leader);
    assert_eq!(
        node.take_outbox(),
        vec![Message {
            term: 1,
            from: Address::Local,
            to: Address::Peer("3".to_string()),
            event: Event::ReplicateEntries { base_index: 0, base_term: 0, entries: vec![entry(1, 1, b"a")] },
        }]
    );
}

#[test]
fn a_leader_that_hears_of_an_unknown_peer_sends_it_nothing() {
    let node = step(leader_of_three(), request(b"a"));
    let mut node = node;
    node.take_outbox();
    let mut node = step(node, from_peer("9", 1, Event::ConfirmLeader { commit_index: 0, has_committed: false }));
    assert_eq!(node.role(), NodeRole::Leader);
    assert!(node.take_outbox().is_empty());
}

#[test]
fn a_quorum_is_a_strict_majority_of_the_cluster() {
    assert_eq!(quorum_of(0), 1);
    assert_eq!(quorum_of(1), 2);
    assert_eq!(quorum_of(2), 2);
    assert_eq!(quorum_of(3), 3);
    assert_eq!(quorum_of(4), 3);
    assert_eq!(quorum_of(5), 4);
    assert_eq!(quorum_of(6), 4);
}

use iraft::instruction::Instruction;
use iraft::log::log::{Entry, Log};
use iraft::log::memory_store::MemoryStore;
use iraft::log::{Bound, Range};
use iraft::message::{Address, Event, Message};
use iraft::node::{Node, NodeRole};
use iraft::transport::route;
use rand::rngs::StdRng;
use rand::{Rng, SeedableRng};
use std::collections::HashMap;

type TestNode = Node<MemoryStore>;

/// A cluster whose network loses, repeats and reorders messages at
/// random, and whose nodes tick at random.
struct Chaos {
    ids: Vec<String>,
    nodes: Vec<TestNode>,
    wire: Vec<(usize, Message)>,
    applied: Vec<Vec<(u64, Vec<u8>)>>,
    leaders: HashMap<u64, String>,
    rng: StdRng,
    requests: u8,
}

fn peers_of(ids: &[String], me: usize) -> Vec<String> {
    ids.iter().enumerate().filter(|(i, _)| *i != me).map(|(_, id)| id.clone()).collect()
}

fn entries_of(node: &TestNode) -> Vec<Entry> {
    node.log().scan(Range::from(Bound::Unbounded, Bound::Unbounded)).unwrap()
}

impl Chaos {
    fn new(size: usize, seed: u64) -> Chaos {
        let ids: Vec<String> = (1..=size).map(|i| i.to_string()).collect();
        let mut rng = StdRng::seed_from_u64(seed);
        let nodes = (0..size)
            .map(|i| {
                let timeout = rng.gen_range(2..=5);
                Node::with_timeout(ids[i].clone(), Log::new(MemoryStore::new()), peers_of(&ids, i), 0, timeout)
                    .unwrap()
            })
            .collect();
        Chaos {
            ids,
            nodes,
            wire: Vec::new(),
            applied: (0..size).map(|_| Vec::new()).collect(),
            leaders: HashMap::new(),
            rng,
            requests: 0,
        }
    }

    fn replace(&mut self, i: usize, f: impl FnOnce(TestNode, u64) -> TestNode) {
        let timeout = self.rng.gen_range(2..=5);
        let placeholder = Node::with_timeout(String::new(), Log::new(MemoryStore::new()), vec![], 0, 2).unwrap();
        let node = std::mem::replace(&mut self.nodes[i], placeholder);
        self.nodes[i] = f(node, timeout);
        let sent = self.nodes[i].take_outbox();
        for instruction in self.nodes[i].take_instructions() {
            if let Instruction::Apply { index, command } = instruction {
                self.applied[i].push((index, command));
            }
        }
        let peers = peers_of(&self.ids, i);
        for msg in sent {
            for delivery in route(msg, &self.ids[i], &peers) {
                let to = self.ids.iter().position(|id| *id == delivery.peer).unwrap();
                self.wire.push((to, delivery.message));
            }
        }
        if self.nodes[i].role() == NodeRole::Leader {
            let term = self.nodes[i].term();
            let known = self.leaders.entry(term).or_insert_with(|| self.ids[i].clone());
            assert_eq!(*known, self.ids[i], "two leaders in term {}", term);
        }
    }

    fn act(&mut self) {
        let size = self.nodes.len();
        match self.rng.gen_range(0..100) {
            0..=24 => {
                let i = self.rng.gen_range(0..size);
                self.replace(i, |node, timeout| node.tick_with(timeout).unwrap());
            }
            25..=29 => {
                let i = self.rng.gen_range(0..size);
                self.requests = self.requests.wrapping_add(1);
                let payload = vec![self.requests, i as u8];
                let msg = Message {
                    term: 0,
                    from: Address::Client,
                    to: Address::Local,
                    event: Event::ClientRequest { id: vec![self.requests], payload },
                };
                self.replace(i, |node, timeout| node.step_with(msg, timeout).unwrap());
            }
            30..=37 => {
                if !self.wire.is_empty() {
                    let k = self.rng.gen_range(0..self.wire.len());
                    self.wire.swap_remove(k);
                }
            }
            38..=39 => {
                let i = self.rng.gen_range(0..size);
                let id = self.ids[i].clone();
                let peers = peers_of(&self.ids, i);
                let applied = self.applied[i].len() as u64;
                self.replace(i, |node, timeout| {
                    Node::with_timeout(id, node.into_log(), peers, applied, timeout).unwrap()
                });
            }
            40..=49 => {
                if !self.wire.is_empty() {
                    let k = self.rng.gen_range(0..self.wire.len());
                    let (to, msg) = (self.wire[k].0, self.wire[k].1.clone());
                    self.replace(to, |node, timeout| node.step_with(msg, timeout).unwrap());
                }
            }
            _ => {
                if !self.wire.is_empty() {
                    let k = self.rng.gen_range(0..self.wire.len());
                    let (to, msg) = self.wire.swap_remove(k);
                    self.replace(to, |node, timeout| node.step_with(msg, timeout).unwrap());
                }
            }
        }
        if self.wire.len() > 400 {
            self.wire.truncate(200);
        }
    }

    fn check(&self) {
        let logs: Vec<Vec<Entry>> = self.nodes.iter().map(entries_of).collect();
        for a in 0..logs.len() {
            for (k, e) in logs[a].iter().enumerate() {
                assert_eq!(e.index, k as u64 + 1);
                assert!(e.term <= self.nodes[a].term());
                if k > 0 {
                    assert!(logs[a][k - 1].term <= e.term);
                }
            }
            assert!(self.nodes[a].log().commit_index() <= self.nodes[a].log().last_index());
            for (k, (index, command)) in self.applied[a].iter().enumerate() {
                assert_eq!(*index, k as u64 + 1);
                assert_eq!(Some(command.clone()), logs[a][k].command);
            }
            assert_eq!(self.applied[a].len() as u64, self.nodes[a].log().commit_index());
            for b in 0..a {
                let shared = logs[a].len().min(logs[b].len());
                for i in (0..shared).rev() {
                    if logs[a][i].term == logs[b][i].term {
                        assert_eq!(logs[a][..=i], logs[b][..=i], "logs differ under a shared term");
                        break;
                    }
                }
                let both = self.applied[a].len().min(self.applied[b].len());
                assert_eq!(self.applied[a][..both], self.applied[b][..both], "nodes applied different commands");
            }
        }
    }
}

fn run(size: usize, seed: u64, steps: usize) -> Chaos {
    let mut chaos = Chaos::new(size, seed);
    let mut terms = vec![0u64; size];
    let mut votes: Vec<Option<String>> = vec![None; size];
    let mut roles = vec![NodeRole::Follower; size];
    let mut logs: Vec<Vec<Entry>> = vec![Vec::new(); size];
    let mut commits = vec![0usize; size];
    for _ in 0..steps {
        chaos.act();
        chaos.check();
        for i in 0..size {
            let node = &chaos.nodes[i];
            let (saved_term, vote) = node.log().get_metadata().unwrap();
            assert_eq!(saved_term, node.term());
            assert!(node.term() >= terms[i], "a term went down");
            if node.term() == terms[i] && votes[i].is_some() {
                assert_eq!(vote, votes[i], "a vote was given twice in a term");
            }
            let log = entries_of(node);
            let committed = node.log().commit_index() as usize;
            assert!(committed >= commits[i], "a commit index went down");
            assert_eq!(log[..commits[i]], logs[i][..commits[i]], "a committed entry changed");
            if roles[i] == NodeRole::Leader && node.role() == NodeRole::Leader && node.term() == terms[i] {
                assert!(log.len() >= logs[i].len());
                assert_eq!(log[..logs[i].len()], logs[i][..], "a leader changed its log");
            }
            terms[i] = node.term();
            votes[i] = vote;
            roles[i] = node.role();
            logs[i] = log;
            commits[i] = committed;
        }
    }
    chaos
}

#[test]
fn three_nodes_stay_safe_whatever_the_network_does() {
    let mut committed = 0;
    let mut elected = 0;
    for seed in 0..40 {
        let chaos = run(3, seed, 1500);
        committed += chaos.applied.iter().map(|a| a.len()).max().unwrap();
        elected += chaos.leaders.len();
    }
    assert!(elected > 40);
    assert!(committed > 40);
}

#[test]
fn five_nodes_stay_safe_whatever_the_network_does() {
    let mut committed = 0;
    for seed in 100..120 {
        let chaos = run(5, seed, 1500);
        committed += chaos.applied.iter().map(|a| a.len()).max().unwrap();
        assert!(!chaos.leaders.is_empty());
    }
    assert!(committed > 20);
}

#[test]
fn four_nodes_stay_safe_whatever_the_network_does() {
    for seed in 200..220 {
        let chaos = run(4, seed, 1200);
        assert!(!chaos.leaders.is_empty());
    }
}

#[test]
fn two_nodes_need_each_other() {
    for seed in 300..310 {
        let chaos = run(2, seed, 600);
        assert!(!chaos.leaders.is_empty());
    }
}

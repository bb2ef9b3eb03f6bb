use iraft::conf::{Config, PeerAddress};
use iraft::driver::{Driver, Outcome, State, MVCC};
use iraft::error::RaftError;
use iraft::instruction::Instruction;
use iraft::message::{Address, Event, Message};
use iraft::transport::{frame, route, unframe, Delivery};

fn heartbeat(from: Address, to: Address) -> Message {
    Message { term: 4, from, to, event: Event::Heartbeat { commit_index: 2, commit_term: 1 } }
}

fn names(names: &[&str]) -> Vec<String> {
    names.iter().map(|n| n.to_string()).collect()
}

#[test]
fn frame_puts_the_length_first_in_big_endian() {
    assert_eq!(frame(&vec![]), Ok(vec![0, 0, 0, 0]));
    assert_eq!(frame(&vec![7, 8, 9]), Ok(vec![0, 0, 0, 3, 7, 8, 9]));
    let long = vec![5u8; 0x0102_03];
    let framed = frame(&long).unwrap();
    assert_eq!(&framed[0..4], &[0, 1, 2, 3]);
    assert_eq!(framed.len(), 4 + 0x0102_03);
}

#[test]
fn unframe_reads_back_what_frame_wrote() {
    let payload = vec![1u8, 2, 3, 4, 5];
    let mut buffer = frame(&payload).unwrap();
    buffer.extend_from_slice(&[0, 0, 0, 1, 9]);
    assert_eq!(unframe(&buffer), Some((payload, 9)));
    let rest = buffer[9..].to_vec();
    assert_eq!(unframe(&rest), Some((vec![9], 5)));
}

#[test]
fn unframe_waits_for_a_whole_frame() {
    assert_eq!(unframe(&vec![]), None);
    assert_eq!(unframe(&vec![0, 0, 0]), None);
    assert_eq!(unframe(&vec![0, 0, 0, 2, 1]), None);
    assert_eq!(unframe(&vec![0, 0, 0, 0]), Some((vec![], 4)));
    assert_eq!(unframe(&vec![255, 255, 255, 255, 1, 2]), None);
}

#[test]
fn route_stamps_the_sender_and_sends_to_every_peer() {
    let deliveries = route(heartbeat(Address::Local, Address::Peers), &"1".to_string(), &names(&["2", "3"]));
    let stamped = heartbeat(Address::Peer("1".to_string()), Address::Peers);
    assert_eq!(
        deliveries,
        vec![
            Delivery { peer: "2".to_string(), message: stamped.clone() },
            Delivery { peer: "3".to_string(), message: stamped },
        ]
    );
}

#[test]
fn route_sends_to_one_peer_and_drops_the_rest() {
    let me = "1".to_string();
    let peers = names(&["2", "3"]);
    let to_three = route(heartbeat(Address::Local, Address::Peer("3".to_string())), &me, &peers);
    assert_eq!(
        to_three,
        vec![Delivery {
            peer: "3".to_string(),
            message: heartbeat(Address::Peer("1".to_string()), Address::Peer("3".to_string())),
        }]
    );
    let kept = route(heartbeat(Address::Peer("9".to_string()), Address::Peer("2".to_string())), &me, &peers);
    assert_eq!(kept[0].message.from, Address::Peer("9".to_string()));
    assert!(route(heartbeat(Address::Local, Address::Client), &me, &peers).is_empty());
    assert!(route(heartbeat(Address::Local, Address::Local), &me, &peers).is_empty());
    assert!(route(heartbeat(Address::Local, Address::Peers), &me, &vec![]).is_empty());
}

#[test]
fn default_config_is_node_one_of_two() {
    let config = Config::default();
    assert_eq!(config.id, "1");
    assert_eq!(config.peers, vec![PeerAddress { id: "2".to_string(), address: "127.0.0.1:1112".to_string() }]);
    assert_eq!(config.listen_raft, "127.0.0.1:1111");
    assert_eq!(config.log_level, "debug");
    assert_eq!(config.data_dir, "/data/iraft");
    assert_eq!(config.peer_ids(), names(&["2"]));
}

#[test]
fn peer_ids_leave_out_the_node_itself() {
    let peer = |id: &str| PeerAddress { id: id.to_string(), address: format!("host-{}:1", id) };
    let config = Config::new(
        "2".to_string(),
        vec![peer("1"), peer("2"), peer("3"), peer("2")],
        "host-2:1".to_string(),
        "info".to_string(),
        "/tmp".to_string(),
    );
    assert_eq!(config.peer_ids(), names(&["1", "3"]));
    let alone = Config::new("1".to_string(), vec![], String::new(), String::new(), String::new());
    assert!(alone.peer_ids().is_empty());
}

struct Recorder {
    seen: Vec<(u64, Vec<u8>)>,
    fail_at: u64,
}

impl State for Recorder {
    fn applied_index(&self) -> u64 {
        self.seen.last().map(|s| s.0).unwrap_or(0)
    }

    fn mutate(&mut self, index: u64, command: Vec<u8>) -> Result<Vec<u8>, RaftError> {
        self.seen.push((index, command.clone()));
        if index == self.fail_at {
            Err(RaftError::InvalidTransition)
        } else {
            Ok(command.iter().rev().cloned().collect())
        }
    }

    fn query(&self, command: Vec<u8>) -> Result<Vec<u8>, RaftError> {
        if command.is_empty() {
            Err(RaftError::InvalidTransition)
        } else {
            Ok(vec![self.seen.len() as u8])
        }
    }
}

fn apply(index: u64, command: &[u8]) -> Instruction {
    Instruction::Apply { index, command: command.to_vec() }
}

#[test]
fn driver_applies_in_order_without_a_gap() {
    let mut driver = Driver::new(Recorder { seen: vec![], fail_at: 2 }, 2);
    assert_eq!(driver.applied_index(), 0);
    assert_eq!(driver.execute(apply(1, b"ab")), Ok(Outcome::Applied { index: 1, result: Some(b"ba".to_vec()) }));
    assert_eq!(driver.execute(apply(1, b"ab")), Ok(Outcome::Skipped { index: 1 }));
    assert_eq!(driver.execute(apply(3, b"x")), Err(RaftError::InvalidTransition));
    assert_eq!(driver.applied_index(), 1);
    assert_eq!(driver.execute(apply(2, b"cd")), Ok(Outcome::Applied { index: 2, result: None }));
    assert_eq!(driver.execute(apply(3, b"x")), Ok(Outcome::Applied { index: 3, result: Some(b"x".to_vec()) }));
    assert_eq!(driver.applied_index(), 3);
    assert_eq!(driver.execute(Instruction::Query { command: vec![1] }), Ok(Outcome::Answered { result: Some(vec![3]) }));
    assert_eq!(driver.execute(Instruction::Query { command: vec![] }), Ok(Outcome::Answered { result: None }));
}

#[test]
fn driver_starts_where_the_state_is() {
    let state = Recorder { seen: vec![(4, vec![])], fail_at: 0 };
    let mut driver = Driver::new(state, 2);
    assert_eq!(driver.applied_index(), 4);
    assert_eq!(driver.execute(apply(4, b"a")), Ok(Outcome::Skipped { index: 4 }));
    assert_eq!(driver.execute(apply(5, b"a")), Ok(Outcome::Applied { index: 5, result: Some(b"a".to_vec()) }));
}

fn vote(term: u64, index: u64, peer: &str) -> Instruction {
    Instruction::Vote { term, index, address: Address::Peer(peer.to_string()) }
}

#[test]
fn driver_tallies_confirmations_against_the_quorum() {
    let mut driver = Driver::new(MVCC::new(), 3);
    assert_eq!(driver.execute(vote(2, 5, "2")), Ok(Outcome::Tallied { term: 2, index: 5, reached: false }));
    assert_eq!(driver.execute(vote(2, 5, "2")), Ok(Outcome::Tallied { term: 2, index: 5, reached: false }));
    assert_eq!(driver.execute(vote(2, 4, "3")), Ok(Outcome::Tallied { term: 2, index: 4, reached: true }));
    assert_eq!(driver.execute(vote(2, 5, "4")), Ok(Outcome::Tallied { term: 2, index: 5, reached: true }));
    assert_eq!(driver.execute(vote(2, 6, "3")), Ok(Outcome::Tallied { term: 2, index: 6, reached: false }));
    assert_eq!(driver.execute(vote(1, 6, "4")), Ok(Outcome::Stale));
    assert_eq!(driver.execute(vote(3, 1, "2")), Ok(Outcome::Tallied { term: 3, index: 1, reached: false }));
    assert_eq!(driver.execute(vote(3, 1, "3")), Ok(Outcome::Tallied { term: 3, index: 1, reached: true }));
}

#[test]
fn the_least_state_applies_and_answers_nothing() {
    let mut state = MVCC::new();
    assert_eq!(state.applied_index(), 0);
    assert_eq!(state.mutate(1, vec![1]), Ok(vec![]));
    assert_eq!(state.applied_index(), 1);
    assert_eq!(state.query(vec![2]), Ok(vec![]));
}

#[test]
fn a_read_gives_back_what_the_state_answers() {
    assert_eq!(Outcome::answered(Ok(vec![4, 2])), Outcome::Answered { result: Some(vec![4, 2]) });
    assert_eq!(Outcome::answered(Ok(vec![])), Outcome::Answered { result: Some(vec![]) });
    assert_eq!(Outcome::answered(Err(RaftError::Store)), Outcome::Answered { result: None });
    let driver = Driver::new(Recorder { seen: vec![(1, vec![]), (2, vec![])], fail_at: 0 }, 2);
    assert_eq!(driver.query(vec![7]), Outcome::Answered { result: Some(vec![2]) });
    assert_eq!(driver.query(vec![]), Outcome::Answered { result: None });
    let least = Driver::new(MVCC::new(), 2);
    assert_eq!(least.query(vec![7]), Outcome::Answered { result: Some(vec![]) });
}

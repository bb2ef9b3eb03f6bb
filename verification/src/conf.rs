//! A node's configuration.

use crate::node::string_views;
use vstd::prelude::*;

verus! {

/// One peer of the cluster: its id and the address it listens on.
#[derive(Debug, PartialEq, Eq)]
pub struct PeerAddress {
    pub id: String,
    pub address: String,
}

/// The ids of the peers other than `id`, in order.
pub open spec fn others(peers: Seq<PeerAddress>, id: Seq<char>) -> Seq<Seq<char>>
    decreases peers.len(),
{
    if peers.len() == 0 {
        Seq::empty()
    } else if peers.last().id@ == id {
        others(peers.drop_last(), id)
    } else {
        others(peers.drop_last(), id).push(peers.last().id@)
    }
}

/// The recognized options.
#[derive(Debug, PartialEq, Eq)]
pub struct Config {
    /// This node's id, unique in the cluster.
    pub id: String,
    /// The peers of the cluster, with or without this node.
    pub peers: Vec<PeerAddress>,
    /// The address to listen on for peers.
    pub listen_raft: String,
    /// How much to log.
    pub log_level: String,
    /// Where a persistent store keeps its files.
    pub data_dir: String,
}

impl Config {
    /// A configuration of the options given.
    pub fn new(
        id: String,
        peers: Vec<PeerAddress>,
        listen_raft: String,
        log_level: String,
        data_dir: String,
    ) -> (config: Config)
        ensures
            config.id == id,
            config.peers == peers,
            config.listen_raft == listen_raft,
            config.log_level == log_level,
            config.data_dir == data_dir,
    {
        Config { id, peers, listen_raft, log_level, data_dir }
    }

    /// The configuration of node "1" of a cluster of two on this machine,
    /// whose other node is "2".
    pub fn default() -> (config: Config)
        ensures
            config.id@ == "1"@,
            config.peers@.len() == 1,
            config.peers@[0].id@ == "2"@,
            config.peers@[0].address@ == "127.0.0.1:1112"@,
            config.listen_raft@ == "127.0.0.1:1111"@,
            config.log_level@ == "debug"@,
            config.data_dir@ == "/data/iraft"@,
    {
        let mut peers: Vec<PeerAddress> = Vec::new();
        peers.push(PeerAddress { id: "2".to_string(), address: "127.0.0.1:1112".to_string() });
        Config {
            id: "1".to_string(),
            peers,
            listen_raft: "127.0.0.1:1111".to_string(),
            log_level: "debug".to_string(),
            data_dir: "/data/iraft".to_string(),
        }
    }

    /// The ids of the peers of this node: those of `peers`, in order,
    /// without this node's own.
    pub fn peer_ids(&self) -> (ids: Vec<String>)
        ensures
            string_views(&ids) == others(self.peers@, self.id@),
    {
        let mut ids: Vec<String> = Vec::new();
        let mut i: usize = 0;
        assert(self.peers@.take(0).len() == 0);
        assert(string_views(&ids) =~= Seq::<Seq<char>>::empty());
        while i < self.peers.len()
            invariant
                i <= self.peers.len(),
                string_views(&ids) == others(self.peers@.take(i as int), self.id@),
            decreases self.peers.len() - i,
        {
            assert(self.peers@.take(i + 1).drop_last() =~= self.peers@.take(i as int));
            assert(self.peers@.take(i + 1).last() == self.peers@[i as int]);
            if self.peers[i].id != self.id {
                let ghost before = string_views(&ids);
                ids.push(self.peers[i].id.clone());
                assert(string_views(&ids) =~= before.push(self.peers@[i as int].id@));
            }
            i += 1;
        }
        assert(self.peers@.take(self.peers.len() as int) =~= self.peers@);
        ids
    }
}

} // verus!

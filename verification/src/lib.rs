//! A small Raft consensus engine: a replicated log, the role machine that
//! elects a leader and replicates entries, and the rules of the transport
//! and of the applied-state driver, each with a machine-checked contract.
//!
//! `node::model` says what a node does, as mathematics; the executable
//! nodes of `node` are proved to do it. `node::laws` and `cluster` prove
//! what follows: of one node in `node::laws`, of a whole cluster in
//! `cluster`.

pub mod bytes;
pub mod cluster;
pub mod codec;
pub mod conf;
pub mod driver;
pub mod error;
pub mod instruction;
pub mod log;
pub mod message;
pub mod node;
pub mod transport;

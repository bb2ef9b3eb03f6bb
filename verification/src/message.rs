//! The messages that nodes, clients and the transport exchange.

use crate::bytes::{clone_bytes, clone_optional_bytes, optional_bytes};
use crate::log::log::{clone_entries, Entry, entry_views, EntryView};
use vstd::prelude::*;

verus! {

/// What an address holds.
pub enum AddressView {
    Peers,
    Peer(Seq<char>),
    Local,
    Client,
}

/// A message address.
#[derive(Debug, PartialEq, Eq, Hash)]
pub enum Address {
    /// Broadcast to all peers.
    Peers,
    /// A remote peer.
    Peer(String),
    /// The local node.
    Local,
    /// A local client.
    Client,
}

impl View for Address {
    type V = AddressView;

    open spec fn view(&self) -> AddressView {
        match self {
            Address::Peers => AddressView::Peers,
            Address::Peer(id) => AddressView::Peer(id@),
            Address::Local => AddressView::Local,
            Address::Client => AddressView::Client,
        }
    }
}

impl Clone for Address {
    fn clone(&self) -> (copy: Address)
        ensures
            copy@ == self@,
    {
        match self {
            Address::Peers => Address::Peers,
            Address::Peer(id) => Address::Peer(id.clone()),
            Address::Local => Address::Local,
            Address::Client => Address::Client,
        }
    }
}

impl Address {
    /// The peer id, where the address is that of a peer.
    pub fn peer(&self) -> (id: Option<String>)
        ensures
            match self@ {
                AddressView::Peer(p) => id matches Some(s) && s@ == p,
                _ => id is None,
            },
    {
        match self {
            Address::Peer(id) => Some(id.clone()),
            _ => None,
        }
    }
}

/// What an event holds.
pub enum EventView {
    Heartbeat { commit_index: u64, commit_term: u64 },
    SolicitVote { last_index: u64, last_term: u64 },
    GrantVote,
    ConfirmLeader { commit_index: u64, has_committed: bool },
    ReplicateEntries { base_index: u64, base_term: u64, entries: Seq<EntryView> },
    AcceptEntries { last_index: u64 },
    RejectEntries,
    ClientRequest { id: Seq<u8>, payload: Seq<u8> },
    ClientResponse { id: Seq<u8>, result: Option<Seq<u8>> },
    Nothing,
}

/// What a message is about.
#[derive(Debug, PartialEq, Eq)]
pub enum Event {
    /// The leader's beacon, with how far it has committed.
    Heartbeat { commit_index: u64, commit_term: u64 },
    /// A candidate asks for a vote and tells how far its log goes.
    SolicitVote { last_index: u64, last_term: u64 },
    /// A peer grants its vote.
    GrantVote,
    /// A follower acknowledges a heartbeat; `has_committed` is false where
    /// it lacks entries up to the leader's commit index.
    ConfirmLeader { commit_index: u64, has_committed: bool },
    /// Entries to append after `base_index`, which must hold `base_term`.
    ReplicateEntries { base_index: u64, base_term: u64, entries: Vec<Entry> },
    /// A follower has taken the entries; its log now ends at `last_index`.
    AcceptEntries { last_index: u64 },
    /// A follower's log does not hold the base of the entries sent.
    RejectEntries,
    /// A client's command.
    ClientRequest { id: Vec<u8>, payload: Vec<u8> },
    /// The answer to a client's command; no result where it failed.
    ClientResponse { id: Vec<u8>, result: Option<Vec<u8>> },
    /// No event at all.
    Nothing,
}

impl View for Event {
    type V = EventView;

    open spec fn view(&self) -> EventView {
        match self {
            Event::Heartbeat { commit_index, commit_term } => EventView::Heartbeat {
                commit_index: *commit_index,
                commit_term: *commit_term,
            },
            Event::SolicitVote { last_index, last_term } => EventView::SolicitVote {
                last_index: *last_index,
                last_term: *last_term,
            },
            Event::GrantVote => EventView::GrantVote,
            Event::ConfirmLeader { commit_index, has_committed } => EventView::ConfirmLeader {
                commit_index: *commit_index,
                has_committed: *has_committed,
            },
            Event::ReplicateEntries { base_index, base_term, entries } => {
                EventView::ReplicateEntries {
                    base_index: *base_index,
                    base_term: *base_term,
                    entries: entry_views(entries),
                }
            },
            Event::AcceptEntries { last_index } => EventView::AcceptEntries {
                last_index: *last_index,
            },
            Event::RejectEntries => EventView::RejectEntries,
            Event::ClientRequest { id, payload } => EventView::ClientRequest {
                id: id@,
                payload: payload@,
            },
            Event::ClientResponse { id, result } => EventView::ClientResponse {
                id: id@,
                result: optional_bytes(*result),
            },
            Event::Nothing => EventView::Nothing,
        }
    }
}

impl Clone for Event {
    fn clone(&self) -> (copy: Event)
        ensures
            copy@ == self@,
    {
        match self {
            Event::Heartbeat { commit_index, commit_term } => Event::Heartbeat {
                commit_index: *commit_index,
                commit_term: *commit_term,
            },
            Event::SolicitVote { last_index, last_term } => Event::SolicitVote {
                last_index: *last_index,
                last_term: *last_term,
            },
            Event::GrantVote => Event::GrantVote,
            Event::ConfirmLeader { commit_index, has_committed } => Event::ConfirmLeader {
                commit_index: *commit_index,
                has_committed: *has_committed,
            },
            Event::ReplicateEntries { base_index, base_term, entries } => Event::ReplicateEntries {
                base_index: *base_index,
                base_term: *base_term,
                entries: clone_entries(entries),
            },
            Event::AcceptEntries { last_index } => Event::AcceptEntries { last_index: *last_index },
            Event::RejectEntries => Event::RejectEntries,
            Event::ClientRequest { id, payload } => Event::ClientRequest {
                id: clone_bytes(id),
                payload: clone_bytes(payload),
            },
            Event::ClientResponse { id, result } => Event::ClientResponse {
                id: clone_bytes(id),
                result: clone_optional_bytes(result),
            },
            Event::Nothing => Event::Nothing,
        }
    }
}

impl Event {
    /// Whether the event is one that a client sends or receives.
    pub fn from_client(&self) -> (client: bool)
        ensures
            client == self@.from_client(),
    {
        match self {
            Event::ClientRequest { .. } => true,
            Event::ClientResponse { .. } => true,
            _ => false,
        }
    }
}

impl EventView {
    /// Whether the event is one that a client sends or receives. Such a
    /// message carries no term.
    pub open spec fn from_client(self) -> bool {
        self is ClientRequest || self is ClientResponse
    }
}

/// What a message holds.
pub struct MessageView {
    pub term: u64,
    pub from: AddressView,
    pub to: AddressView,
    pub event: EventView,
}

/// A message: the sender's term, the two addresses, and the event.
#[derive(Debug, PartialEq, Eq)]
pub struct Message {
    pub term: u64,
    pub from: Address,
    pub to: Address,
    pub event: Event,
}

impl View for Message {
    type V = MessageView;

    open spec fn view(&self) -> MessageView {
        MessageView { term: self.term, from: self.from@, to: self.to@, event: self.event@ }
    }
}

impl Clone for Message {
    fn clone(&self) -> (copy: Message)
        ensures
            copy@ == self@,
    {
        Message {
            term: self.term,
            from: self.from.clone(),
            to: self.to.clone(),
            event: self.event.clone(),
        }
    }
}

/// What a list of messages holds.
pub open spec fn message_views(messages: &Vec<Message>) -> Seq<MessageView> {
    Seq::new(messages@.len(), |i: int| messages@[i]@)
}

} // verus!

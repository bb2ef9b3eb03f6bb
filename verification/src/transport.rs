//! The rules of the transport: how a message's bytes are framed on a
//! connection, and to whom an outbound message goes.

use crate::error::RaftError;
use crate::message::{Address, AddressView, Message, MessageView};
use crate::node::string_views;
use vstd::prelude::*;

verus! {

/// The greatest length of a payload that a frame can carry.
pub const MAX_PAYLOAD: u64 = 0xffff_ffff;

/// The four bytes that stand for `len`, the most significant first.
pub open spec fn length_prefix(len: nat) -> Seq<u8> {
    seq![
        (len / 16777216) as u8,
        ((len / 65536) % 256) as u8,
        ((len / 256) % 256) as u8,
        (len % 256) as u8,
    ]
}

/// The length that the first four bytes of `bytes` stand for.
pub open spec fn prefixed_length(bytes: Seq<u8>) -> nat {
    (bytes[0] as nat) * 16777216 + (bytes[1] as nat) * 65536 + (bytes[2] as nat) * 256 + (
    bytes[3] as nat)
}

/// A payload as it goes over a connection: its length in four bytes, the
/// most significant first, then the payload.
pub open spec fn framed(payload: Seq<u8>) -> Seq<u8> {
    length_prefix(payload.len()) + payload
}

/// Frames a payload. Refused, with `Decode`, where the payload is longer
/// than four bytes can tell.
pub fn frame(payload: &Vec<u8>) -> (r: Result<Vec<u8>, RaftError>)
    ensures
        payload.len() <= MAX_PAYLOAD ==> (r matches Ok(bytes) && bytes@ == framed(payload@)),
        payload.len() > MAX_PAYLOAD ==> r == Err::<Vec<u8>, RaftError>(RaftError::Decode),
{
    let len = payload.len() as u64;
    if len > MAX_PAYLOAD {
        return Err(RaftError::Decode);
    }
    let mut bytes: Vec<u8> = Vec::new();
    bytes.push((len / 16777216) as u8);
    bytes.push(((len / 65536) % 256) as u8);
    bytes.push(((len / 256) % 256) as u8);
    bytes.push((len % 256) as u8);
    assert(bytes@ =~= length_prefix(payload.len() as nat));
    let mut i: usize = 0;
    while i < payload.len()
        invariant
            i <= payload.len(),
            bytes@ == length_prefix(payload.len() as nat) + payload@.take(i as int),
        decreases payload.len() - i,
    {
        bytes.push(payload[i]);
        i += 1;
        assert(bytes@ =~= length_prefix(payload.len() as nat) + payload@.take(i as int));
    }
    assert(payload@.take(payload.len() as int) =~= payload@);
    Ok(bytes)
}

/// Takes the first frame off `buffer`: its payload, and the number of
/// bytes of the buffer that the frame takes. `None` where the buffer does
/// not hold a whole frame yet.
pub fn unframe(buffer: &Vec<u8>) -> (r: Option<(Vec<u8>, usize)>)
    ensures
        match r {
            Some((payload, used)) => {
                &&& buffer.len() >= 4
                &&& used == 4 + prefixed_length(buffer@)
                &&& used <= buffer.len()
                &&& payload@ == buffer@.subrange(4, used as int)
            },
            None => buffer.len() < 4 || buffer.len() < 4 + prefixed_length(buffer@),
        },
{
    if buffer.len() < 4 {
        return None;
    }
    let len: u64 = (buffer[0] as u64) * 16777216 + (buffer[1] as u64) * 65536 + (buffer[2] as u64)
        * 256 + (buffer[3] as u64);
    if (buffer.len() as u64) < 4 + len {
        return None;
    }
    let used: usize = (4 + len) as usize;
    let mut payload: Vec<u8> = Vec::new();
    let mut i: usize = 4;
    while i < used
        invariant
            4 <= i <= used <= buffer.len(),
            payload@ == buffer@.subrange(4, i as int),
        decreases used - i,
    {
        payload.push(buffer[i]);
        i += 1;
        assert(payload@ =~= buffer@.subrange(4, i as int));
    }
    Some((payload, used))
}

/// A frame is read back as the payload it was made of, whatever follows
/// it: the length read is the payload's, and the bytes after the four of
/// the length are the payload.
pub proof fn law_frame_round_trip(payload: Seq<u8>, rest: Seq<u8>)
    requires
        payload.len() <= MAX_PAYLOAD,
    ensures
        (framed(payload) + rest).len() >= 4 + payload.len(),
        prefixed_length(framed(payload) + rest) == payload.len(),
        (framed(payload) + rest).subrange(4, 4 + payload.len() as int) == payload,
{
    let len = payload.len();
    let all = framed(payload) + rest;
    assert(all[0] == (len / 16777216) as u8);
    assert(all[1] == ((len / 65536) % 256) as u8);
    assert(all[2] == ((len / 256) % 256) as u8);
    assert(all[3] == (len % 256) as u8);
    assert(all.subrange(4, 4 + len as int) =~= payload);
}

/// One message on its way to one peer.
#[derive(Debug, PartialEq, Eq)]
pub struct Delivery {
    pub peer: String,
    pub message: Message,
}

/// What a delivery holds.
pub struct DeliveryView {
    pub peer: Seq<char>,
    pub message: MessageView,
}

impl View for Delivery {
    type V = DeliveryView;

    open spec fn view(&self) -> DeliveryView {
        DeliveryView { peer: self.peer@, message: self.message@ }
    }
}

/// What a list of deliveries holds.
pub open spec fn delivery_views(deliveries: &Vec<Delivery>) -> Seq<DeliveryView> {
    Seq::new(deliveries@.len(), |i: int| deliveries@[i]@)
}

/// A message as it leaves a node: where it says that it is from the local
/// node, it says that it is from the peer `id`.
pub open spec fn stamped(msg: MessageView, id: Seq<char>) -> MessageView {
    if msg.from is Local {
        MessageView { from: AddressView::Peer(id), ..msg }
    } else {
        msg
    }
}

/// Where an outbound message of the node `id` goes: to every peer where it
/// is for the peers, to one peer where it is for that peer, and nowhere
/// else.
pub open spec fn routed(msg: MessageView, id: Seq<char>, peers: Seq<Seq<char>>) -> Seq<
    DeliveryView,
> {
    match msg.to {
        AddressView::Peers => Seq::new(
            peers.len(),
            |i: int| DeliveryView { peer: peers[i], message: stamped(msg, id) },
        ),
        AddressView::Peer(p) => seq![DeliveryView { peer: p, message: stamped(msg, id) }],
        _ => Seq::empty(),
    }
}

/// The deliveries that an outbound message of the node `id` makes.
pub fn route(msg: Message, id: &String, peers: &Vec<String>) -> (deliveries: Vec<Delivery>)
    ensures
        delivery_views(&deliveries) == routed(msg@, id@, string_views(peers)),
{
    let ghost given = msg@;
    let mut msg = msg;
    match &msg.from {
        Address::Local => {
            msg.from = Address::Peer(id.clone());
        },
        _ => {},
    }
    assert(msg@ == stamped(given, id@));
    let mut deliveries: Vec<Delivery> = Vec::new();
    match &msg.to {
        Address::Peers => {
            let mut i: usize = 0;
            while i < peers.len()
                invariant
                    i <= peers.len(),
                    msg@ == stamped(given, id@),
                    msg@.to == given.to,
                    delivery_views(&deliveries) == Seq::new(
                        i as nat,
                        |k: int|
                            DeliveryView {
                                peer: string_views(peers)[k],
                                message: stamped(given, id@),
                            },
                    ),
                decreases peers.len() - i,
            {
                let ghost before = delivery_views(&deliveries);
                let delivery = Delivery { peer: peers[i].clone(), message: msg.clone() };
                deliveries.push(delivery);
                assert(delivery_views(&deliveries) =~= before.push(delivery@));
                i += 1;
                assert(delivery_views(&deliveries) =~= Seq::new(
                    i as nat,
                    |k: int|
                        DeliveryView {
                            peer: string_views(peers)[k],
                            message: stamped(given, id@),
                        },
                ));
            }
            assert(delivery_views(&deliveries) =~= routed(given, id@, string_views(peers)));
        },
        Address::Peer(p) => {
            let peer = p.clone();
            let delivery = Delivery { peer, message: msg };
            deliveries.push(delivery);
            assert(delivery_views(&deliveries) =~= routed(given, id@, string_views(peers)));
        },
        _ => {
            assert(delivery_views(&deliveries) =~= routed(given, id@, string_views(peers)));
        },
    }
    deliveries
}

} // verus!

//! BitTorrent peer wire protocol messages (BEP-3) and extension protocol (BEP-10).

use vstd::prelude::*;
use vstd::slice::slice_subrange;

use crate::buffer::{
    bytes_slice, contents, copy_to_bytes, extend_buffer, freeze, has_room, held, new_buffer, put_u16,
    put_u32, put_u8,
};
use crate::error::{Error, PeerError, Result};
use crate::octets::{
    be16, be32, copy_range, from_be16, from_be32, lemma_be_round_trip, low32, u16_be, u32_be,
};

verus! {

/// Standard block size used in REQUEST messages (2^14 = 16 KiB).
pub const BLOCK_SIZE: u32 = 16_384;

// Message type IDs

pub const MSG_CHOKE: u8 = 0;

pub const MSG_UNCHOKE: u8 = 1;

pub const MSG_INTERESTED: u8 = 2;

pub const MSG_NOT_INTERESTED: u8 = 3;

pub const MSG_HAVE: u8 = 4;

pub const MSG_BITFIELD: u8 = 5;

pub const MSG_REQUEST: u8 = 6;

pub const MSG_PIECE: u8 = 7;

pub const MSG_CANCEL: u8 = 8;

pub const MSG_PORT: u8 = 9;

pub const MSG_EXTENSION: u8 = 20;

/// Parsed peer wire message.
#[derive(Debug, Clone)]
pub enum Message {
    KeepAlive,
    Choke,
    Unchoke,
    Interested,
    NotInterested,
    Have(u32),
    Bitfield(Vec<u8>),
    Request { index: u32, begin: u32, length: u32 },
    Piece { index: u32, begin: u32, data: bytes::Bytes },
    Cancel { index: u32, begin: u32, length: u32 },
    Port(u16),
    Extension { ext_id: u8, payload: bytes::Bytes },
    Unknown(u8),
}

/// The content of a [`Message`].
pub enum Msg {
    KeepAlive,
    Choke,
    Unchoke,
    Interested,
    NotInterested,
    Have(u32),
    Bitfield(Seq<u8>),
    Request { index: u32, begin: u32, length: u32 },
    Piece { index: u32, begin: u32, data: Seq<u8> },
    Cancel { index: u32, begin: u32, length: u32 },
    Port(u16),
    Extension { ext_id: u8, payload: Seq<u8> },
    Unknown(u8),
}

impl View for Message {
    type V = Msg;

    open spec fn view(&self) -> Msg {
        match *self {
            Message::KeepAlive => Msg::KeepAlive,
            Message::Choke => Msg::Choke,
            Message::Unchoke => Msg::Unchoke,
            Message::Interested => Msg::Interested,
            Message::NotInterested => Msg::NotInterested,
            Message::Have(index) => Msg::Have(index),
            Message::Bitfield(bits) => Msg::Bitfield(bits@),
            Message::Request { index, begin, length } => Msg::Request { index, begin, length },
            Message::Piece { index, begin, data } => Msg::Piece {
                index,
                begin,
                data: contents(data),
            },
            Message::Cancel { index, begin, length } => Msg::Cancel { index, begin, length },
            Message::Port(port) => Msg::Port(port),
            Message::Extension { ext_id, payload } => Msg::Extension {
                ext_id,
                payload: contents(payload),
            },
            Message::Unknown(id) => Msg::Unknown(id),
        }
    }
}

/// The id byte of a message; a keep-alive and an unknown message have none.
pub open spec fn id_of(m: Msg) -> Option<u8> {
    match m {
        Msg::KeepAlive => None,
        Msg::Choke => Some(MSG_CHOKE),
        Msg::Unchoke => Some(MSG_UNCHOKE),
        Msg::Interested => Some(MSG_INTERESTED),
        Msg::NotInterested => Some(MSG_NOT_INTERESTED),
        Msg::Have(_) => Some(MSG_HAVE),
        Msg::Bitfield(_) => Some(MSG_BITFIELD),
        Msg::Request { .. } => Some(MSG_REQUEST),
        Msg::Piece { .. } => Some(MSG_PIECE),
        Msg::Cancel { .. } => Some(MSG_CANCEL),
        Msg::Port(_) => Some(MSG_PORT),
        Msg::Extension { .. } => Some(MSG_EXTENSION),
        Msg::Unknown(_) => None,
    }
}

/// What follows the id byte of a message.
pub open spec fn payload_of(m: Msg) -> Seq<u8> {
    match m {
        Msg::Have(index) => be32(index),
        Msg::Bitfield(bits) => bits,
        Msg::Request { index, begin, length } => be32(index) + be32(begin) + be32(length),
        Msg::Piece { index, begin, data } => be32(index) + be32(begin) + data,
        Msg::Cancel { index, begin, length } => be32(index) + be32(begin) + be32(length),
        Msg::Port(port) => be16(port),
        Msg::Extension { ext_id, payload } => seq![ext_id] + payload,
        _ => seq![],
    }
}

/// The fixed part of a message that a variable part follows: the id byte and
/// the numbers before the data.
pub open spec fn head_len(m: Msg) -> int {
    match m {
        Msg::Bitfield(_) => 1,
        Msg::Piece { .. } => 9,
        Msg::Extension { .. } => 2,
        _ => 0,
    }
}

/// The variable part of a message.
pub open spec fn tail(m: Msg) -> Seq<u8> {
    match m {
        Msg::Bitfield(bits) => bits,
        Msg::Piece { data, .. } => data,
        Msg::Extension { payload, .. } => payload,
        _ => seq![],
    }
}

/// The length that is written in front of a message. Of the length of the
/// variable part only 32 bits count.
pub open spec fn prefix_of(m: Msg) -> int {
    if head_len(m) > 0 {
        head_len(m) + tail(m).len() as int % 0x1_0000_0000
    } else if id_of(m) is Some {
        1 + payload_of(m).len() as int
    } else {
        0
    }
}

/// The bytes of a message on the wire. There are none for an unknown message.
pub open spec fn wire(m: Msg) -> Seq<u8> {
    match id_of(m) {
        Some(id) => be32(prefix_of(m) as u32) + seq![id] + payload_of(m),
        None => if m is KeepAlive {
            be32(0)
        } else {
            seq![]
        },
    }
}

/// The least length of the payload of a message, by its id.
pub open spec fn least_payload(id: u8) -> nat {
    if id == MSG_HAVE {
        4
    } else if id == MSG_REQUEST || id == MSG_CANCEL {
        12
    } else if id == MSG_PIECE {
        8
    } else if id == MSG_PORT {
        2
    } else if id == MSG_EXTENSION {
        1
    } else {
        0
    }
}

/// The message with an id and a payload. Payload beyond what a message needs is ignored.
pub open spec fn decoded(id: u8, payload: Seq<u8>) -> std::result::Result<Msg, PeerError> {
    if payload.len() < least_payload(id) {
        Err(
            PeerError::MessageTooShort {
                id,
                len: payload.len() as usize,
                min: least_payload(id) as usize,
            },
        )
    } else if id == MSG_CHOKE {
        Ok(Msg::Choke)
    } else if id == MSG_UNCHOKE {
        Ok(Msg::Unchoke)
    } else if id == MSG_INTERESTED {
        Ok(Msg::Interested)
    } else if id == MSG_NOT_INTERESTED {
        Ok(Msg::NotInterested)
    } else if id == MSG_HAVE {
        Ok(Msg::Have(from_be32(payload, 0)))
    } else if id == MSG_BITFIELD {
        Ok(Msg::Bitfield(payload))
    } else if id == MSG_REQUEST {
        Ok(
            Msg::Request {
                index: from_be32(payload, 0),
                begin: from_be32(payload, 4),
                length: from_be32(payload, 8),
            },
        )
    } else if id == MSG_PIECE {
        Ok(
            Msg::Piece {
                index: from_be32(payload, 0),
                begin: from_be32(payload, 4),
                data: payload.skip(8),
            },
        )
    } else if id == MSG_CANCEL {
        Ok(
            Msg::Cancel {
                index: from_be32(payload, 0),
                begin: from_be32(payload, 4),
                length: from_be32(payload, 8),
            },
        )
    } else if id == MSG_PORT {
        Ok(Msg::Port(from_be16(payload, 0)))
    } else if id == MSG_EXTENSION {
        Ok(Msg::Extension { ext_id: payload[0], payload: payload.skip(1) })
    } else {
        Ok(Msg::Unknown(id))
    }
}

impl Message {
    /// Encode a message into its wire representation.
    pub fn encode(&self) -> (r: bytes::Bytes)
        requires
            prefix_of(self@) <= u32::MAX,
            has_room(13 + tail(self@).len()),
        ensures
            contents(r) == wire(self@),
    {
        let mut buf = new_buffer();
        match self {
            Message::KeepAlive => {
                put_u32(&mut buf, 0);
            },
            Message::Choke => {
                put_u32(&mut buf, 1);
                put_u8(&mut buf, MSG_CHOKE);
            },
            Message::Unchoke => {
                put_u32(&mut buf, 1);
                put_u8(&mut buf, MSG_UNCHOKE);
            },
            Message::Interested => {
                put_u32(&mut buf, 1);
                put_u8(&mut buf, MSG_INTERESTED);
            },
            Message::NotInterested => {
                put_u32(&mut buf, 1);
                put_u8(&mut buf, MSG_NOT_INTERESTED);
            },
            Message::Have(index) => {
                put_u32(&mut buf, 5);
                put_u8(&mut buf, MSG_HAVE);
                put_u32(&mut buf, *index);
            },
            Message::Bitfield(bits) => {
                put_u32(&mut buf, 1 + low32(bits.len() as u64));
                put_u8(&mut buf, MSG_BITFIELD);
                extend_buffer(&mut buf, bits.as_slice());
            },
            Message::Request { index, begin, length } => {
                put_u32(&mut buf, 13);
                put_u8(&mut buf, MSG_REQUEST);
                put_u32(&mut buf, *index);
                put_u32(&mut buf, *begin);
                put_u32(&mut buf, *length);
            },
            Message::Piece { index, begin, data } => {
                let data = bytes_slice(data);
                put_u32(&mut buf, 9 + low32(data.len() as u64));
                put_u8(&mut buf, MSG_PIECE);
                put_u32(&mut buf, *index);
                put_u32(&mut buf, *begin);
                extend_buffer(&mut buf, data);
            },
            Message::Cancel { index, begin, length } => {
                put_u32(&mut buf, 13);
                put_u8(&mut buf, MSG_CANCEL);
                put_u32(&mut buf, *index);
                put_u32(&mut buf, *begin);
                put_u32(&mut buf, *length);
            },
            Message::Port(port) => {
                put_u32(&mut buf, 3);
                put_u8(&mut buf, MSG_PORT);
                put_u16(&mut buf, *port);
            },
            Message::Extension { ext_id, payload } => {
                let payload = bytes_slice(payload);
                put_u32(&mut buf, 2 + low32(payload.len() as u64));
                put_u8(&mut buf, MSG_EXTENSION);
                put_u8(&mut buf, *ext_id);
                extend_buffer(&mut buf, payload);
            },
            Message::Unknown(_) => {},
        }
        assert(held(buf) =~= wire(self@));
        freeze(buf)
    }

    /// Decode from a length-prefixed payload already read off the wire.
    /// `id` is the first byte; `payload` is the rest.
    pub fn decode(id: u8, payload: &[u8]) -> (r: Result<Message>)
        ensures
            match decoded(id, payload@) {
                Ok(m) => r matches Ok(x) && x@ == m,
                Err(e) => r matches Err(Error::Peer(x)) && x == e,
            },
    {
        let min: usize = if id == MSG_HAVE {
            4
        } else if id == MSG_REQUEST || id == MSG_CANCEL {
            12
        } else if id == MSG_PIECE {
            8
        } else if id == MSG_PORT {
            2
        } else if id == MSG_EXTENSION {
            1
        } else {
            0
        };
        if payload.len() < min {
            return Err(Error::Peer(PeerError::MessageTooShort { id, len: payload.len(), min }));
        }
        let m = if id == MSG_CHOKE {
            Message::Choke
        } else if id == MSG_UNCHOKE {
            Message::Unchoke
        } else if id == MSG_INTERESTED {
            Message::Interested
        } else if id == MSG_NOT_INTERESTED {
            Message::NotInterested
        } else if id == MSG_HAVE {
            Message::Have(u32_be(payload, 0))
        } else if id == MSG_BITFIELD {
            let bits = copy_range(payload, 0, payload.len());
            assert(bits@ =~= payload@);
            Message::Bitfield(bits)
        } else if id == MSG_REQUEST {
            Message::Request {
                index: u32_be(payload, 0),
                begin: u32_be(payload, 4),
                length: u32_be(payload, 8),
            }
        } else if id == MSG_PIECE {
            let data = slice_subrange(payload, 8, payload.len());
            assert(data@ =~= payload@.skip(8));
            Message::Piece {
                index: u32_be(payload, 0),
                begin: u32_be(payload, 4),
                data: copy_to_bytes(data),
            }
        } else if id == MSG_CANCEL {
            Message::Cancel {
                index: u32_be(payload, 0),
                begin: u32_be(payload, 4),
                length: u32_be(payload, 8),
            }
        } else if id == MSG_PORT {
            Message::Port(u16_be(payload, 0))
        } else if id == MSG_EXTENSION {
            let rest = slice_subrange(payload, 1, payload.len());
            assert(rest@ =~= payload@.skip(1));
            Message::Extension { ext_id: payload[0], payload: copy_to_bytes(rest) }
        } else {
            Message::Unknown(id)
        };
        Ok(m)
    }
}

// Laws

/// The length in front of a message that has an id is that of what follows it.
pub proof fn lemma_prefix_is_length(m: Msg)
    requires
        id_of(m) is Some,
        tail(m).len() <= u32::MAX,
    ensures
        prefix_of(m) == wire(m).len() - 4,
{
}

/// Decoding the id and the payload of a message gives the message back.
pub proof fn lemma_message_round_trip(m: Msg)
    requires
        id_of(m) is Some,
    ensures
        decoded(id_of(m).unwrap(), payload_of(m)) == Ok::<Msg, PeerError>(m),
{
    let p = payload_of(m);
    match m {
        Msg::Have(index) => {
            assert(p.subrange(0, 4) =~= be32(index));
            lemma_be_round_trip(p, 0);
        },
        Msg::Request { index, begin, length } | Msg::Cancel { index, begin, length } => {
            assert(p.subrange(0, 4) =~= be32(index));
            assert(p.subrange(4, 8) =~= be32(begin));
            assert(p.subrange(8, 12) =~= be32(length));
            lemma_be_round_trip(p, 0);
            lemma_be_round_trip(p, 4);
            lemma_be_round_trip(p, 8);
        },
        Msg::Piece { index, begin, data } => {
            assert(p.subrange(0, 4) =~= be32(index));
            assert(p.subrange(4, 8) =~= be32(begin));
            assert(p.skip(8) =~= data);
            lemma_be_round_trip(p, 0);
            lemma_be_round_trip(p, 4);
        },
        Msg::Port(port) => {
            assert(p.subrange(0, 2) =~= be16(port));
            lemma_be_round_trip(p, 0);
        },
        Msg::Extension { ext_id, payload } => {
            assert(p.skip(1) =~= payload);
        },
        _ => {},
    }
}

/// On the wire a message is its length in four bytes, the number of its kind,
/// and its fields in order.
pub proof fn lemma_wire_layout(m: Msg)
    requires
        tail(m).len() + 9 <= u32::MAX,
        !(m is Unknown),
    ensures
        wire(m).len() >= 4,
        wire(m).take(4) == be32((wire(m).len() - 4) as u32),
        m is KeepAlive <==> wire(m).len() == 4,
        wire(m).len() > 4 ==> wire(m)[4] == match m {
            Msg::Choke => 0u8,
            Msg::Unchoke => 1,
            Msg::Interested => 2,
            Msg::NotInterested => 3,
            Msg::Have(_) => 4,
            Msg::Bitfield(_) => 5,
            Msg::Request { .. } => 6,
            Msg::Piece { .. } => 7,
            Msg::Cancel { .. } => 8,
            Msg::Port(_) => 9,
            _ => 20,
        },
        m matches Msg::Have(index) ==> wire(m).skip(5) == be32(index),
        m matches Msg::Bitfield(bits) ==> wire(m).skip(5) == bits,
        m matches Msg::Port(port) ==> wire(m).skip(5) == be16(port),
        m matches Msg::Request { index, begin, length } ==> wire(m).subrange(5, 9) == be32(index)
            && wire(m).subrange(9, 13) == be32(begin) && wire(m).subrange(13, 17) == be32(length)
            && wire(m).len() == 17,
        m matches Msg::Cancel { index, begin, length } ==> wire(m).subrange(5, 9) == be32(index)
            && wire(m).subrange(9, 13) == be32(begin) && wire(m).subrange(13, 17) == be32(length)
            && wire(m).len() == 17,
        m matches Msg::Piece { index, begin, data } ==> wire(m).subrange(5, 9) == be32(index)
            && wire(m).subrange(9, 13) == be32(begin) && wire(m).skip(13) == data,
        m matches Msg::Extension { ext_id, payload } ==> wire(m)[5] == ext_id && wire(m).skip(6)
            == payload,
{
    let w = wire(m);
    if id_of(m) is Some {
        lemma_prefix_is_length(m);
    }
    assert(w.take(4) =~= be32((w.len() - 4) as u32));
    match m {
        Msg::Have(index) => assert(w.skip(5) =~= be32(index)),
        Msg::Bitfield(bits) => assert(w.skip(5) =~= bits),
        Msg::Port(port) => assert(w.skip(5) =~= be16(port)),
        Msg::Request { index, begin, length } | Msg::Cancel { index, begin, length } => {
            assert(w.subrange(5, 9) =~= be32(index));
            assert(w.subrange(9, 13) =~= be32(begin));
            assert(w.subrange(13, 17) =~= be32(length));
        },
        Msg::Piece { index, begin, data } => {
            assert(w.subrange(5, 9) =~= be32(index));
            assert(w.subrange(9, 13) =~= be32(begin));
            assert(w.skip(13) =~= data);
        },
        Msg::Extension { ext_id, payload } => assert(w.skip(6) =~= payload),
        _ => {},
    }
}

/// A message that lacks a field is refused; one of another kind is kept as
/// unknown, whatever it holds; and bytes after the last field do not matter.
pub proof fn lemma_odd_messages(id: u8, payload: Seq<u8>, m: Msg, extra: Seq<u8>)
    ensures
        (id == 4 && payload.len() < 4) || ((id == 6 || id == 8) && payload.len() < 12) || (id == 7
            && payload.len() < 8) || (id == 9 && payload.len() < 2) || (id == 20 && payload.len()
            == 0) ==> (decoded(id, payload) matches Err(PeerError::MessageTooShort {
            id: i,
            len,
            ..
        }) && i == id && (payload.len() <= usize::MAX ==> len == payload.len())),
        id > 9 && id != 20 ==> decoded(id, payload) == Ok::<Msg, PeerError>(Msg::Unknown(id)),
        id <= 3 ==> decoded(id, payload) == decoded(id, seq![]),
        m is Have || m is Request || m is Cancel || m is Port ==> decoded(
            id_of(m).unwrap(),
            payload_of(m) + extra,
        ) == Ok::<Msg, PeerError>(m),
{
    let p = payload_of(m) + extra;
    match m {
        Msg::Have(index) => {
            assert(p.subrange(0, 4) =~= be32(index));
            lemma_be_round_trip(p, 0);
        },
        Msg::Request { index, begin, length } | Msg::Cancel { index, begin, length } => {
            assert(p.subrange(0, 4) =~= be32(index));
            assert(p.subrange(4, 8) =~= be32(begin));
            assert(p.subrange(8, 12) =~= be32(length));
            lemma_be_round_trip(p, 0);
            lemma_be_round_trip(p, 4);
            lemma_be_round_trip(p, 8);
        },
        Msg::Port(port) => {
            assert(p.subrange(0, 2) =~= be16(port));
            lemma_be_round_trip(p, 0);
        },
        _ => {},
    }
}

} // verus!

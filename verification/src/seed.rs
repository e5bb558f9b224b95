//! Serving the pieces of a complete torrent to a peer that connects to us.

use vstd::prelude::*;

use crate::buffer::bytes_from_vec;
use crate::error::PeerError;
use crate::metainfo::{
    is_addressable, is_last_piece, lemma_piece_addressable, lemma_pieces_cover, piece_count_of,
    piece_len_of, Metainfo, Torrent,
};
use crate::peer::message::{Message, Msg};
use crate::piece_download::{block_count, block_of, Blocks, MAX_PIECE_LEN};
use crate::piece_manager::{bit, has_piece, lemma_set_bit};

verus! {

/// The longest block that a peer may ask for.
pub const MAX_REQUEST: u32 = 131072;

/// What to do after a message of the peer.
pub enum ServeAction {
    /// Read `length` bytes at `offset` of the stream, and send them with
    /// [`piece_reply`].
    Reply { index: u32, begin: u32, length: u32, offset: u64 },
    Send(Message),
    /// Wait for the next message.
    Wait,
    /// The peer has left.
    End,
    Fail(PeerError),
}

/// The content of a [`ServeAction`].
pub enum Served {
    Reply { index: u32, begin: u32, length: u32, offset: int },
    Send(Msg),
    Wait,
    End,
    Fail(PeerError),
}

impl View for ServeAction {
    type V = Served;

    open spec fn view(&self) -> Served {
        match *self {
            ServeAction::Reply { index, begin, length, offset } => Served::Reply {
                index,
                begin,
                length,
                offset: offset as int,
            },
            ServeAction::Send(m) => Served::Send(m@),
            ServeAction::Wait => Served::Wait,
            ServeAction::End => Served::End,
            ServeAction::Fail(e) => Served::Fail(e),
        }
    }
}

/// What comes of a message of the peer, or of the end of the connection.
pub open spec fn served(t: Torrent, message: Option<Msg>) -> Served {
    match message {
        Some(Msg::Request { index, begin, length }) => if index >= piece_count_of(t) || length == 0
            || length > MAX_REQUEST {
            Served::Fail(PeerError::InvalidRequest)
        } else if begin + length > piece_len_of(t, index as int) {
            Served::Fail(PeerError::RequestOutOfBounds)
        } else {
            Served::Reply { index, begin, length, offset: index * t.piece_length + begin }
        },
        Some(Msg::Interested) => Served::Send(Msg::Unchoke),
        Some(Msg::Choke) => Served::End,
        Some(Msg::NotInterested) => Served::End,
        None => Served::End,
        Some(_) => Served::Wait,
    }
}

/// The content of a message that may be missing.
pub open spec fn opt_message(m: Option<Message>) -> Option<Msg> {
    match m {
        Some(m) => Some(m@),
        None => None,
    }
}

/// Whether what a request asks for has a position in the stream.
pub open spec fn servable(t: Torrent, message: Option<Msg>) -> bool {
    match message {
        Some(Msg::Request { index, begin, length }) => index < piece_count_of(t) ==> {
            &&& is_last_piece(t, index as int) ==> t.piece_length > 0
            &&& begin + length <= piece_len_of(t, index as int) ==> index * t.piece_length + begin
                <= u64::MAX
        },
        _ => true,
    }
}

/// Go on after a message of the peer, or after it closed the connection.
pub fn serve(meta: &Metainfo, message: &Option<Message>) -> (a: ServeAction)
    requires
        servable(meta@, opt_message(*message)),
    ensures
        a@ == served(meta@, opt_message(*message)),
{
    match message {
        Some(Message::Request { index, begin, length }) => {
            let index: u32 = *index;
            let begin: u32 = *begin;
            let length: u32 = *length;
            if index >= meta.piece_count() || length == 0 || length > MAX_REQUEST {
                return ServeAction::Fail(PeerError::InvalidRequest);
            }
            if begin as u64 + length as u64 > meta.piece_len(index) {
                return ServeAction::Fail(PeerError::RequestOutOfBounds);
            }
            assert(0 <= index * meta.piece_length) by (nonlinear_arith);
            let start: u64 = index as u64 * meta.piece_length;
            ServeAction::Reply { index, begin, length, offset: start + begin as u64 }
        },
        Some(Message::Interested) => ServeAction::Send(Message::Unchoke),
        Some(Message::Choke) => ServeAction::End,
        Some(Message::NotInterested) => ServeAction::End,
        None => ServeAction::End,
        Some(_) => ServeAction::Wait,
    }
}

/// The message that answers a request.
pub fn piece_reply(index: u32, begin: u32, data: Vec<u8>) -> (m: Message)
    ensures
        m@ == (Msg::Piece { index, begin, data: data@ }),
{
    Message::Piece { index, begin, data: bytes_from_vec(data) }
}

/// Whether a bitfield shows that every one of `n` pieces is there, and has no
/// other bit set.
pub open spec fn shows_all(bits: Seq<u8>, n: int) -> bool {
    &&& bits.len() == (n + 7) / 8
    &&& forall|i: int| 0 <= i < 8 * bits.len() ==> #[trigger] bit(bits, i) == (i < n)
}

/// The bitfield of a peer that has everything.
pub fn full_bitfield(piece_count: u32) -> (bits: Vec<u8>)
    ensures
        shows_all(bits@, piece_count as int),
{
    let n: u32 = piece_count / 8 + if piece_count % 8 == 0 {
        0
    } else {
        1
    };
    let mut bits: Vec<u8> = Vec::new();
    let mut k: u32 = 0;
    while k < n
        invariant
            k <= n,
            bits@ == Seq::new(k as nat, |i: int| 0u8),
        decreases n - k,
    {
        bits.push(0);
        k = k + 1;
        assert(bits@ =~= Seq::new(k as nat, |i: int| 0u8));
    }
    proof {
        assert forall|j: int| 0 <= j < 8 * bits@.len() implies !#[trigger] bit(bits@, j) by {
            let s = (7 - j % 8) as u8;
            assert((0u8 >> s) & 1u8 != 1u8) by (bit_vector)
                requires
                    s < 8,
            ;
        }
    }
    let mut i: u32 = 0;
    while i < piece_count
        invariant
            i <= piece_count,
            n == (piece_count + 7) / 8,
            bits@.len() == n,
            forall|j: int| 0 <= j < 8 * bits@.len() ==> #[trigger] bit(bits@, j) == (j < i),
        decreases piece_count - i,
    {
        let at: usize = i as usize;
        let ghost before = bits@;
        let shift: u8 = (7 - at % 8) as u8;
        let old_byte: u8 = bits[at / 8];
        bits[at / 8] = old_byte | (1u8 << shift);
        proof {
            assert forall|j: int| 0 <= j < 8 * bits@.len() implies #[trigger] bit(bits@, j) == (j
                < i + 1) by {
                assert(bit(before, j) == (j < i));
                if j / 8 == at / 8 {
                    let s = (7 - j % 8) as u8;
                    lemma_set_bit(old_byte, shift, s);
                    assert(s == shift <==> j == at);
                }
            }
        }
        i = i + 1;
    }
    bits
}

/// The messages that greet a peer: that we have everything, and that it may ask.
pub fn opening(meta: &Metainfo) -> (r: Vec<Message>)
    ensures
        r@.len() == 2,
        r@[0]@ is Bitfield,
        shows_all(r@[0]@->Bitfield_0, piece_count_of(meta@)),
        r@[1]@ == Msg::Unchoke,
{
    let mut r: Vec<Message> = Vec::new();
    r.push(Message::Bitfield(full_bitfield(meta.piece_count())));
    r.push(Message::Unchoke);
    r
}

/// Whether seeding has gone on for as long as it may, both in nanoseconds.
pub fn time_is_up(elapsed: u128, limit: Option<u128>) -> (r: bool)
    ensures
        r == (limit is Some && elapsed >= limit->0),
{
    match limit {
        Some(most) => elapsed >= most,
        None => false,
    }
}

// Laws

/// A peer that reads our greeting knows that we have every piece.
pub proof fn lemma_full_bitfield(bits: Seq<u8>, n: int)
    requires
        0 <= n,
        shows_all(bits, n),
    ensures
        forall|i: int| 0 <= i < n ==> #[trigger] has_piece(bits, i),
{
    assert forall|i: int| 0 <= i < n implies #[trigger] has_piece(bits, i) by {
        assert(bit(bits, i));
    }
}

/// The bytes of a piece in the stream.
pub open spec fn piece_of(t: Torrent, stream: Seq<u8>, index: int) -> Seq<u8> {
    stream.subrange(
        index * t.piece_length,
        index * t.piece_length + piece_len_of(t, index),
    )
}

/// Every request of a download is served, and with the block of the piece that
/// was asked for.
pub proof fn lemma_requests_are_served(t: Torrent, stream: Seq<u8>, b: Blocks, pipeline: int)
    requires
        is_addressable(t),
        b.index < piece_count_of(t),
        piece_len_of(t, b.index as int) <= MAX_PIECE_LEN,
        b.data.len() == piece_len_of(t, b.index as int),
        b.received.len() == block_count(b.data.len() as int),
        0 <= b.next_request,
        b.index * t.piece_length + piece_len_of(t, b.index as int) <= stream.len(),
    ensures
        b.request(pipeline) matches Some((begin, length)) ==> {
            let reply = served(t, Some(Msg::Request { index: b.index, begin, length }));
            let offset = b.index * t.piece_length + begin;
            &&& reply == (Served::Reply { index: b.index, begin, length, offset })
            &&& stream.subrange(offset, offset + length) == block_of(
                piece_of(t, stream, b.index as int),
                b.next_request,
            )
        },
{
    lemma_piece_addressable(t, b.index as int);
    if let Some((begin, length)) = b.request(pipeline) {
        let offset = b.index * t.piece_length + begin;
        assert(stream.subrange(offset, offset + length) =~= block_of(
            piece_of(t, stream, b.index as int),
            b.next_request,
        ));
    }
}

/// In a torrent whose pieces all have a position in the stream, every request
/// can be looked at.
pub proof fn lemma_addressable_is_servable(t: Torrent, message: Option<Msg>)
    requires
        is_addressable(t),
    ensures
        servable(t, message),
{
    if let Some(Msg::Request { index, begin, length }) = message {
        if index < piece_count_of(t) {
            lemma_piece_addressable(t, index as int);
        }
    }
}

/// A request is answered with exactly the bytes that it asks for, from where
/// they stand in the stream, if they lie in one piece of the torrent and are
/// neither none nor too many; otherwise the peer is left.
pub proof fn lemma_request(t: Torrent, index: u32, begin: u32, length: u32)
    requires
        is_addressable(t),
    ensures
        ({
            let reply = served(t, Some(Msg::Request { index, begin, length }));
            let fits = index < piece_count_of(t) && begin + length <= piece_len_of(
                t,
                index as int,
            );
            &&& fits && 0 < length <= 131072 ==> (reply matches Served::Reply {
                index: i,
                begin: b,
                length: n,
                offset,
            } && i == index && b == begin && n == length && offset - begin == index
                * t.piece_length)
            &&& !(fits && 0 < length <= 131072) ==> reply is Fail
            &&& index >= piece_count_of(t) ==> reply == Served::Fail(PeerError::InvalidRequest)
            &&& length == 0 || length > 131072 ==> reply == Served::Fail(PeerError::InvalidRequest)
        }),
{
}

/// What is sent for a request lies within the stream, and in the piece that was
/// asked for.
pub proof fn lemma_reply_is_in_stream(t: Torrent, message: Option<Msg>)
    requires
        is_addressable(t),
        t.total_length > 0,
        piece_count_of(t) == (t.total_length + t.piece_length - 1) / t.piece_length as int,
    ensures
        served(t, message) matches Served::Reply { index, begin, length, offset } ==> {
            &&& 0 <= index * t.piece_length <= offset
            &&& offset + length <= t.total_length
            &&& offset + length <= index * t.piece_length + t.piece_length
        },
{
    if let Some(Msg::Request { index, begin, length }) = message {
        if index < piece_count_of(t) {
            lemma_pieces_cover(t);
            let p = t.piece_length as int;
            let n = piece_count_of(t);
            let i = index as int;
            assert(0 <= i * p && i * p + p <= (n - 1) * p + p) by (nonlinear_arith)
                requires
                    0 <= i <= n - 1,
                    p > 0,
            ;
            if i < n - 1 {
                assert(i * p + p <= (n - 1) * p) by (nonlinear_arith)
                    requires
                        0 <= i < n - 1,
                        p > 0,
                ;
                assert(piece_len_of(t, i) == p);
            }
            assert(piece_len_of(t, n - 1) <= p);
        }
    }
}

/// Whatever else a peer sends, nothing comes of it: it is served until it chokes
/// us, loses interest or leaves, and told that it may ask when it is interested.
pub proof fn lemma_served_until_it_leaves(t: Torrent, message: Option<Msg>)
    ensures
        served(t, message) is End <==> message is None || message == Some(Msg::Choke) || message
            == Some(Msg::NotInterested),
        served(t, message) is Send <==> message == Some(Msg::Interested),
        served(t, Some(Msg::Interested)) == Served::Send(Msg::Unchoke),
        served(t, message) is Reply ==> message is Some && message.unwrap() is Request,
        served(t, message) is Fail ==> message is Some && message.unwrap() is Request,
{
}

} // verus!

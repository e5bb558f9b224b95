//! Peer connection framing: cuts length-prefixed peer wire messages out of the
//! bytes that arrive on a stream (plain TCP or MSE-encrypted).

use vstd::prelude::*;
use vstd::slice::slice_subrange;

use crate::buffer::{
    buffer_slice, buffer_with_capacity, extend_buffer, has_room, held, split_to,
};
use crate::error::{Error, PeerError, Result};
use crate::octets::{be32, from_be32, lemma_be_round_trip, u32_be};
use crate::peer::message::{
    decoded, id_of, lemma_message_round_trip, lemma_prefix_is_length, payload_of, wire,
    Message, Msg,
};

verus! {

/// Maximum message payload we'll accept from a peer (prevents memory exhaustion).
pub const MAX_MSG_LEN: u32 = 8_388_608;

/// The bytes of a connection that have arrived and are not consumed yet.
pub struct FrameReader {
    read_buf: bytes::BytesMut,
    /// The length of the message whose prefix has been consumed.
    pending: Option<u32>,
}

/// The content of a [`FrameReader`].
#[verifier::ext_equal]
pub struct Unread {
    pub pending: Option<u32>,
    pub bytes: Seq<u8>,
}

/// What can be made of the bytes that have arrived.
pub enum Frame {
    NeedMore,
    Got(Msg),
    Bad(PeerError),
}

impl Unread {
    /// Bytes that start with the length of a message.
    pub open spec fn fresh(bytes: Seq<u8>) -> Unread {
        Unread { pending: None, bytes }
    }

    /// Nothing has arrived that is not consumed.
    pub open spec fn is_idle(self) -> bool {
        self.pending is None && self.bytes.len() == 0
    }

    /// What comes of the bytes when a message of length `len` is awaited.
    pub open spec fn body(self, len: u32) -> (Frame, Unread) {
        if len == 0 {
            (Frame::Got(Msg::KeepAlive), Unread::fresh(self.bytes))
        } else if len > MAX_MSG_LEN {
            (Frame::Bad(PeerError::OversizedMessage { bytes: len }), Unread::fresh(self.bytes))
        } else if self.bytes.len() < len {
            (Frame::NeedMore, Unread { pending: Some(len), bytes: self.bytes })
        } else {
            let rest = Unread::fresh(self.bytes.skip(len as int));
            match decoded(self.bytes[0], self.bytes.subrange(1, len as int)) {
                Ok(m) => (Frame::Got(m), rest),
                Err(e) => (Frame::Bad(e), rest),
            }
        }
    }

    /// The next message, and what is left when it is taken off.
    pub open spec fn next(self) -> (Frame, Unread) {
        match self.pending {
            Some(len) => self.body(len),
            None => if self.bytes.len() < 4 {
                (Frame::NeedMore, self)
            } else {
                Unread::fresh(self.bytes.skip(4)).body(from_be32(self.bytes, 0))
            },
        }
    }

    /// The bytes after more have arrived.
    pub open spec fn plus(self, more: Seq<u8>) -> Unread {
        Unread { pending: self.pending, bytes: self.bytes + more }
    }
}

impl View for FrameReader {
    type V = Unread;

    closed spec fn view(&self) -> Unread {
        Unread { pending: self.pending, bytes: held(self.read_buf) }
    }
}

impl FrameReader {
    /// A reader for a connection on which nothing has arrived.
    pub fn new() -> (r: Self)
        ensures
            r@.is_idle(),
    {
        FrameReader { read_buf: buffer_with_capacity(65536), pending: None }
    }

    /// Take in bytes that were read off the stream.
    pub fn feed(&mut self, data: &[u8])
        requires
            has_room(old(self)@.bytes.len() + data@.len()),
        ensures
            final(self)@ == old(self)@.plus(data@),
    {
        extend_buffer(&mut self.read_buf, data);
    }

    /// Take the next message off the bytes that have arrived, or return `None`
    /// if more of them are needed.
    pub fn next_message(&mut self) -> (r: Result<Option<Message>>)
        ensures
            ({
                let (frame, rest) = old(self)@.next();
                &&& final(self)@ == rest
                &&& match frame {
                    Frame::NeedMore => r matches Ok(None),
                    Frame::Got(m) => r matches Ok(Some(x)) && x@ == m,
                    Frame::Bad(e) => r matches Err(Error::Peer(x)) && x == e,
                }
            }),
            r matches Ok(None) ==> final(self)@.bytes.len() < MAX_MSG_LEN,
    {
        let len: u32 = match self.pending {
            Some(len) => len,
            None => {
                let bytes = buffer_slice(&self.read_buf);
                if bytes.len() < 4 {
                    return Ok(None);
                }
                let len = u32_be(bytes, 0);
                let _ = split_to(&mut self.read_buf, 4);
                len
            },
        };
        self.pending = None;
        if len == 0 {
            return Ok(Some(Message::KeepAlive));
        }
        if len > MAX_MSG_LEN {
            return Err(Error::Peer(PeerError::OversizedMessage { bytes: len }));
        }
        let bytes = buffer_slice(&self.read_buf);
        if bytes.len() < len as usize {
            self.pending = Some(len);
            return Ok(None);
        }
        let decoded = Message::decode(bytes[0], slice_subrange(bytes, 1, len as usize));
        let _ = split_to(&mut self.read_buf, len as usize);
        match decoded {
            Ok(m) => Ok(Some(m)),
            Err(e) => Err(e),
        }
    }

    /// The stream has ended: whether it did so between messages. Anywhere else
    /// the connection was closed mid-message.
    pub fn end_of_stream(&self) -> (r: Result<()>)
        ensures
            match r {
                Ok(()) => self@.is_idle(),
                Err(e) => !self@.is_idle() && e matches Error::Peer(PeerError::ConnectionClosed),
            },
    {
        let bytes = buffer_slice(&self.read_buf);
        if self.pending.is_none() && bytes.len() == 0 {
            Ok(())
        } else {
            Err(Error::Peer(PeerError::ConnectionClosed))
        }
    }
}

// Laws

/// A message that was written is read back, and what follows it is left.
pub proof fn lemma_read_back(m: Msg, rest: Seq<u8>)
    requires
        id_of(m) is Some || m is KeepAlive,
        wire(m).len() - 4 <= MAX_MSG_LEN,
    ensures
        Unread::fresh(wire(m) + rest).next() == (Frame::Got(m), Unread::fresh(rest)),
{
    let all = wire(m) + rest;
    if m is KeepAlive {
        assert(all.subrange(0, 4) =~= be32(0));
        lemma_be_round_trip(all, 0);
        assert(all.skip(4) =~= rest);
    } else {
        let len = (wire(m).len() - 4) as u32;
        lemma_message_round_trip(m);
        lemma_prefix_is_length(m);
        assert(all.subrange(0, 4) =~= be32(len));
        lemma_be_round_trip(all, 0);
        let body = all.skip(4);
        assert(body[0] == id_of(m).unwrap());
        assert(body.subrange(1, len as int) =~= payload_of(m));
        assert(body.skip(len as int) =~= rest);
    }
}

/// How the stream is cut into reads does not matter: bytes that arrive later
/// complete the message that is awaited as if they had been there at once.
pub proof fn lemma_chunks_do_not_matter(u: Unread, more: Seq<u8>)
    ensures
        u.next().0 is NeedMore ==> u.next().1.plus(more).next() == u.plus(more).next(),
        u.next().0 is Got ==> u.plus(more).next() == (u.next().0, u.next().1.plus(more)),
        u.next().0 is Bad ==> u.plus(more).next().0 == u.next().0,
{
    let all = u.bytes + more;
    match u.pending {
        Some(len) => {
            lemma_body_chunks(u, len, more);
        },
        None => {
            if u.bytes.len() >= 4 {
                let len = from_be32(u.bytes, 0);
                assert(from_be32(all, 0) == len);
                assert(all.skip(4) =~= u.bytes.skip(4) + more);
                lemma_body_chunks(Unread::fresh(u.bytes.skip(4)), len, more);
            }
        },
    }
}

proof fn lemma_body_chunks(u: Unread, len: u32, more: Seq<u8>)
    ensures
        u.body(len).0 is NeedMore ==> u.body(len).1.plus(more).next() == u.plus(more).body(len),
        u.body(len).0 is Got ==> u.plus(more).body(len) == (
            u.body(len).0,
            u.body(len).1.plus(more),
        ),
        u.body(len).0 is Bad ==> u.plus(more).body(len).0 == u.body(len).0,
{
    let all = u.bytes + more;
    if 0 < len <= MAX_MSG_LEN && u.bytes.len() >= len {
        assert(all.subrange(1, len as int) =~= u.bytes.subrange(1, len as int));
        assert(all.skip(len as int) =~= u.bytes.skip(len as int) + more);
    }
}

// Whole streams

/// What is made of a stream: the messages in the order in which they come out,
/// the error that ends them if there is one, and what is left.
#[verifier::ext_equal]
pub struct Received {
    pub messages: Seq<Msg>,
    pub error: Option<PeerError>,
    pub left: Unread,
}

impl Received {
    /// The messages before these.
    pub open spec fn after(self, before: Seq<Msg>) -> Received {
        Received { messages: before + self.messages, ..self }
    }
}

impl Unread {
    /// How much there is left to consume.
    pub open spec fn size(self) -> nat {
        self.bytes.len() + if self.pending is Some {
            1nat
        } else {
            0nat
        }
    }

    /// What comes of taking off messages until more bytes are needed.
    pub open spec fn drained(self) -> Received
        decreases self.size(),
    {
        let (frame, rest) = self.next();
        match frame {
            Frame::NeedMore => Received { messages: seq![], error: None, left: rest },
            Frame::Bad(e) => Received { messages: seq![], error: Some(e), left: rest },
            Frame::Got(m) => rest.drained().after(seq![m]),
        }
    }
}

/// What comes of a stream that arrives in the given reads, when all messages
/// that have arrived are taken off before each read.
pub open spec fn received(u: Unread, reads: Seq<Seq<u8>>) -> Received
    decreases reads.len(),
{
    let now = u.drained();
    if now.error is Some || reads.len() == 0 {
        now
    } else {
        received(now.left.plus(reads[0]), reads.drop_first()).after(now.messages)
    }
}

/// The bytes of messages that are sent one after the other.
pub open spec fn wires(messages: Seq<Msg>) -> Seq<u8>
    decreases messages.len(),
{
    if messages.len() == 0 {
        seq![]
    } else {
        wire(messages[0]) + wires(messages.drop_first())
    }
}

/// The bytes of reads, one after the other.
pub open spec fn joined(reads: Seq<Seq<u8>>) -> Seq<u8>
    decreases reads.len(),
{
    if reads.len() == 0 {
        seq![]
    } else {
        reads[0] + joined(reads.drop_first())
    }
}

/// Whether a message can be sent and is accepted by the other side.
pub open spec fn is_sendable(m: Msg) -> bool {
    &&& id_of(m) is Some || m is KeepAlive
    &&& wire(m).len() - 4 <= MAX_MSG_LEN
}

pub open spec fn all_sendable(messages: Seq<Msg>) -> bool {
    forall|i: int| 0 <= i < messages.len() ==> is_sendable(#[trigger] messages[i])
}

proof fn lemma_drained_plus(u: Unread, more: Seq<u8>)
    ensures
        u.drained().error is None ==> u.plus(more).drained() == u.drained().left.plus(
            more,
        ).drained().after(u.drained().messages),
        u.drained().error is Some ==> u.plus(more).drained().messages == u.drained().messages
            && u.plus(more).drained().error == u.drained().error,
    decreases u.size(),
{
    lemma_chunks_do_not_matter(u, more);
    let (frame, rest) = u.next();
    match frame {
        Frame::NeedMore => {
            let d = rest.plus(more).drained();
            assert(d.after(seq![]) =~= d);
        },
        Frame::Bad(_) => {},
        Frame::Got(m) => {
            lemma_drained_plus(rest, more);
            let d = rest.drained();
            if d.error is None {
                let e = d.left.plus(more).drained();
                assert(e.after(d.messages).after(seq![m]) =~= e.after(seq![m] + d.messages));
            }
        },
    }
}

/// How a stream is cut into reads does not matter: the same messages come out,
/// in the same order, and the same is left.
pub proof fn lemma_reads_do_not_matter(u: Unread, reads: Seq<Seq<u8>>)
    ensures
        ({
            let at_once = u.plus(joined(reads)).drained();
            let r = received(u, reads);
            &&& r.messages == at_once.messages
            &&& r.error == at_once.error
            &&& r.error is None ==> r.left == at_once.left
        }),
    decreases reads.len(),
{
    let now = u.drained();
    lemma_drained_plus(u, joined(reads));
    if now.error is Some {
    } else if reads.len() == 0 {
        assert(u.plus(seq![]) =~= u);
    } else {
        let rest = reads.drop_first();
        let next = now.left.plus(reads[0]);
        lemma_reads_do_not_matter(next, rest);
        assert(next.plus(joined(rest)) =~= now.left.plus(joined(reads)));
    }
}

proof fn lemma_drained_wires(messages: Seq<Msg>, tail: Seq<u8>)
    requires
        all_sendable(messages),
    ensures
        Unread::fresh(wires(messages) + tail).drained() == Unread::fresh(tail).drained().after(
            messages,
        ),
    decreases messages.len(),
{
    let d = Unread::fresh(tail).drained();
    if messages.len() == 0 {
        assert(wires(messages) + tail =~= tail);
        assert(d.after(messages) =~= d);
    } else {
        let rest = messages.drop_first();
        assert(is_sendable(messages[0]));
        assert forall|i: int| 0 <= i < rest.len() implies is_sendable(#[trigger] rest[i]) by {
            assert(is_sendable(messages[i + 1]));
        }
        lemma_drained_wires(rest, tail);
        lemma_read_back(messages[0], wires(rest) + tail);
        assert(wires(messages) + tail =~= wire(messages[0]) + (wires(rest) + tail));
        assert(d.after(rest).after(seq![messages[0]]) =~= d.after(messages)) by {
            assert(seq![messages[0]] + (rest + d.messages) =~= messages + d.messages);
        }
    }
}

/// Messages that were sent one after the other come out in order, however the
/// stream is cut into reads, and then nothing is left: the end of the stream is
/// a clean one.
pub proof fn lemma_stream_read_back(messages: Seq<Msg>, reads: Seq<Seq<u8>>)
    requires
        all_sendable(messages),
        joined(reads) == wires(messages),
    ensures
        ({
            let r = received(Unread::fresh(seq![]), reads);
            &&& r.messages == messages
            &&& r.error is None
            &&& r.left.is_idle()
        }),
{
    lemma_reads_do_not_matter(Unread::fresh(seq![]), reads);
    assert(Unread::fresh(seq![]).plus(joined(reads)) =~= Unread::fresh(
        wires(messages) + seq![],
    ));
    lemma_drained_wires(messages, seq![]);
    assert(Unread::fresh(Seq::<u8>::empty()).drained().messages =~= seq![]);
    assert(messages + Seq::<Msg>::empty() =~= messages);
}

/// A stream that ends inside a message gives the messages before it and no
/// more; what is left makes its end an error.
pub proof fn lemma_cut_stream(
    messages: Seq<Msg>,
    last: Msg,
    n: int,
    reads: Seq<Seq<u8>>,
)
    requires
        all_sendable(messages),
        is_sendable(last),
        0 < n < wire(last).len(),
        joined(reads) == wires(messages) + wire(last).take(n),
    ensures
        ({
            let r = received(Unread::fresh(seq![]), reads);
            &&& r.messages == messages
            &&& r.error is None
            &&& !r.left.is_idle()
        }),
{
    let tail = wire(last).take(n);
    lemma_reads_do_not_matter(Unread::fresh(seq![]), reads);
    assert(Unread::fresh(seq![]).plus(joined(reads)) =~= Unread::fresh(wires(messages) + tail));
    lemma_drained_wires(messages, tail);
    if n >= 4 {
        let len = (wire(last).len() - 4) as u32;
        lemma_prefix_is_length(last);
        assert(tail.subrange(0, 4) =~= be32(len));
        lemma_be_round_trip(tail, 0);
        assert(tail.skip(4).len() == n - 4);
    }
    assert(Unread::fresh(tail).next().0 is NeedMore);
    assert(messages + Seq::<Msg>::empty() =~= messages);
}

/// A length prefix above the limit ends the stream with an error after the
/// messages before it.
pub proof fn lemma_oversized_stream(
    messages: Seq<Msg>,
    len: u32,
    rest: Seq<u8>,
    reads: Seq<Seq<u8>>,
)
    requires
        all_sendable(messages),
        len > MAX_MSG_LEN,
        joined(reads) == wires(messages) + be32(len) + rest,
    ensures
        ({
            let r = received(Unread::fresh(seq![]), reads);
            &&& r.messages == messages
            &&& r.error == Some(PeerError::OversizedMessage { bytes: len })
        }),
{
    let tail = be32(len) + rest;
    lemma_reads_do_not_matter(Unread::fresh(seq![]), reads);
    assert(Unread::fresh(seq![]).plus(joined(reads)) =~= Unread::fresh(wires(messages) + tail));
    lemma_drained_wires(messages, tail);
    assert(tail.subrange(0, 4) =~= be32(len));
    lemma_be_round_trip(tail, 0);
    assert(messages + Seq::<Msg>::empty() =~= messages);
}

/// A message may have eight mebibytes, and not a byte more.
pub proof fn lemma_longest_message(u: Unread, len: u32)
    ensures
        len > 8 * 1024 * 1024 ==> u.body(len).0 == Frame::Bad(
            PeerError::OversizedMessage { bytes: len },
        ),
        len <= 8 * 1024 * 1024 && u.bytes.len() < len ==> u.body(len).0 == Frame::NeedMore,
        0 < len <= 8 * 1024 * 1024 && u.bytes.len() >= len ==> u.body(len).1.bytes == u.bytes.skip(
            len as int,
        ) && u.body(len).1.pending is None,
{
}

} // verus!

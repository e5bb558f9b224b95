//! UDP tracker protocol (BEP-15).
//!
//! Flow:
//!   1. Send connect request  (action=0)
//!   2. Receive connect response → get connection_id
//!   3. Send announce request (action=1) with connection_id
//!   4. Receive announce response → peer list

use vstd::prelude::*;
use vstd::slice::slice_subrange;
use vstd::utf8::{encode_utf8, encode_utf8_decode_utf8, encode_utf8_valid_utf8};

use super::{AnnounceRequest, AnnounceResponse, Announced, Event};
use crate::error::{Error, Result, TrackerError};
use crate::octets::{
    append_be16, append_be32, append_be64, append_bytes, be16, be32, be64, from_be16, from_be32,
    from_be64, lemma_be_round_trip, u32_be, u64_be,
};
use crate::random::random_u32;
use crate::text::{
    after_prefix, chars_of, find_char, find_char_from, has_prefix, lemma_find_char, str_of,
    string_of, utf8_chars,
};
use crate::types::{
    append_compact4, compact4_list, compact_all, lemma_compact4_round_trip, Endpoint, PeerAddr,
};

verus! {

/// Magic protocol ID for the connect request.
pub const PROTOCOL_MAGIC: u64 = 0x0000041727101980;

pub const ACTION_CONNECT: u32 = 0;

pub const ACTION_ANNOUNCE: u32 = 1;

pub const ACTION_ERROR: u32 = 3;

/// The bytes of a connect request.
pub open spec fn connect_bytes(transaction_id: u32) -> Seq<u8> {
    be64(PROTOCOL_MAGIC) + be32(ACTION_CONNECT) + be32(transaction_id)
}

/// The number of an event; an announce without one counts as started.
pub open spec fn event_code(event: Option<Event>) -> u32 {
    match event {
        None => 2,
        Some(Event::Started) => 2,
        Some(Event::Completed) => 1,
        Some(Event::Stopped) => 3,
    }
}

/// The first part of an announce request: what it is about.
pub open spec fn announce_head(
    req: AnnounceRequest<'_>,
    connection_id: u64,
    transaction_id: u32,
) -> Seq<u8> {
    be64(connection_id) + be32(ACTION_ANNOUNCE) + be32(transaction_id) + req.info_hash.0@
        + req.peer_id.0@
}

/// The second part of an announce request: how far we are. The address is left
/// to the tracker, and so is the number of peers.
pub open spec fn announce_tail(req: AnnounceRequest<'_>, key: u32) -> Seq<u8> {
    be64(req.downloaded) + be64(req.left) + be64(req.uploaded) + be32(event_code(req.event)) + be32(
        0,
    ) + be32(key) + be32(0xffff_ffff) + be16(req.port)
}

/// The bytes of an announce request.
pub open spec fn announce_bytes(
    req: AnnounceRequest<'_>,
    connection_id: u64,
    transaction_id: u32,
    key: u32,
) -> Seq<u8> {
    announce_head(req, connection_id, transaction_id) + announce_tail(req, key)
}

/// Whether a packet is an announce request, with some key.
pub open spec fn is_announce(
    packet: Seq<u8>,
    req: AnnounceRequest<'_>,
    connection_id: u64,
    transaction_id: u32,
) -> bool {
    exists|key: u32| packet == #[trigger] announce_bytes(req, connection_id, transaction_id, key)
}

/// Why a UDP tracker's answer is refused.
pub enum UdpError {
    Plain(TrackerError),
    /// The tracker's own error message.
    Message(Seq<char>),
}

/// The connection id that a connect response gives.
pub open spec fn connection_of(resp: Seq<u8>, transaction_id: u32) -> std::result::Result<
    u64,
    TrackerError,
> {
    if resp.len() < 16 {
        Err(TrackerError::ConnectTooShort)
    } else if from_be32(resp, 0) != ACTION_CONNECT {
        Err(TrackerError::ConnectAction(from_be32(resp, 0)))
    } else if from_be32(resp, 4) != transaction_id {
        Err(TrackerError::ConnectTransaction)
    } else {
        Ok(from_be64(resp, 8))
    }
}

/// The text of an error response.
pub open spec fn error_text(resp: Seq<u8>) -> Seq<char> {
    match utf8_chars(resp.skip(8)) {
        Some(s) => s,
        None => "unknown error"@,
    }
}

/// What an announce response holds.
pub open spec fn announced_of(resp: Seq<u8>, transaction_id: u32) -> std::result::Result<
    Announced,
    UdpError,
> {
    if resp.len() < 20 {
        Err(UdpError::Plain(TrackerError::AnnounceTooShort { len: resp.len() as usize }))
    } else if from_be32(resp, 0) == ACTION_ERROR {
        Err(UdpError::Message(error_text(resp)))
    } else if from_be32(resp, 0) != ACTION_ANNOUNCE {
        Err(UdpError::Plain(TrackerError::AnnounceAction(from_be32(resp, 0))))
    } else if from_be32(resp, 4) != transaction_id {
        Err(UdpError::Plain(TrackerError::AnnounceTransaction))
    } else {
        Ok(
            Announced {
                peers: compact4_list(resp.skip(20)),
                interval: from_be32(resp, 8) as u64,
                warning: None,
            },
        )
    }
}

/// A connect request.
pub fn build_connect(transaction_id: u32) -> (r: Vec<u8>)
    ensures
        r@ == connect_bytes(transaction_id),
        r@.len() == 16,
{
    let mut r: Vec<u8> = Vec::new();
    append_be64(&mut r, PROTOCOL_MAGIC);
    append_be32(&mut r, ACTION_CONNECT);
    append_be32(&mut r, transaction_id);
    assert(r@ =~= connect_bytes(transaction_id));
    r
}

/// Read a connect response.
pub fn parse_connect(resp: &[u8], transaction_id: u32) -> (r: Result<u64>)
    ensures
        match connection_of(resp@, transaction_id) {
            Ok(id) => r matches Ok(x) && x == id,
            Err(e) => r matches Err(Error::Tracker(x)) && x == e,
        },
{
    if resp.len() < 16 {
        return Err(Error::Tracker(TrackerError::ConnectTooShort));
    }
    let action = u32_be(resp, 0);
    if action != ACTION_CONNECT {
        return Err(Error::Tracker(TrackerError::ConnectAction(action)));
    }
    if u32_be(resp, 4) != transaction_id {
        return Err(Error::Tracker(TrackerError::ConnectTransaction));
    }
    Ok(u64_be(resp, 8))
}

/// An announce request.
pub fn build_announce(
    req: &AnnounceRequest<'_>,
    connection_id: u64,
    transaction_id: u32,
    key: u32,
) -> (r: Vec<u8>)
    ensures
        r@ == announce_bytes(*req, connection_id, transaction_id, key),
        r@.len() == 98,
{
    let code: u32 = match req.event {
        None => 2,
        Some(e) => match e {
            Event::Started => 2,
            Event::Completed => 1,
            Event::Stopped => 3,
        },
    };
    let mut r: Vec<u8> = Vec::new();
    append_be64(&mut r, connection_id);
    append_be32(&mut r, ACTION_ANNOUNCE);
    append_be32(&mut r, transaction_id);
    append_bytes(&mut r, req.info_hash.0.as_slice());
    append_bytes(&mut r, req.peer_id.0.as_slice());
    assert(r@ =~= announce_head(*req, connection_id, transaction_id));
    let mut tail: Vec<u8> = Vec::new();
    append_be64(&mut tail, req.downloaded);
    append_be64(&mut tail, req.left);
    append_be64(&mut tail, req.uploaded);
    append_be32(&mut tail, code);
    append_be32(&mut tail, 0);
    append_be32(&mut tail, key);
    append_be32(&mut tail, 0xffff_ffff);
    append_be16(&mut tail, req.port);
    assert(tail@ =~= announce_tail(*req, key));
    append_bytes(&mut r, tail.as_slice());
    r
}

/// Read an announce response.
pub fn parse_announce(resp: &[u8], transaction_id: u32) -> (r: Result<AnnounceResponse>)
    ensures
        match announced_of(resp@, transaction_id) {
            Ok(a) => r matches Ok(x) && x@ == a,
            Err(UdpError::Plain(e)) => r matches Err(Error::Tracker(x)) && x == e,
            Err(UdpError::Message(s)) => r matches Err(Error::Tracker(TrackerError::Udp(t))) && t@
                == s,
        },
{
    if resp.len() < 20 {
        return Err(Error::Tracker(TrackerError::AnnounceTooShort { len: resp.len() }));
    }
    let action = u32_be(resp, 0);
    if action == ACTION_ERROR {
        let rest = slice_subrange(resp, 8, resp.len());
        assert(rest@ =~= resp@.skip(8));
        let text = match str_of(rest) {
            Some(s) => s,
            None => "unknown error",
        };
        return Err(Error::Tracker(TrackerError::Udp(text.to_owned())));
    }
    if action != ACTION_ANNOUNCE {
        return Err(Error::Tracker(TrackerError::AnnounceAction(action)));
    }
    if u32_be(resp, 4) != transaction_id {
        return Err(Error::Tracker(TrackerError::AnnounceTransaction));
    }
    let mut peers: Vec<PeerAddr> = Vec::new();
    let rest = slice_subrange(resp, 20, resp.len());
    assert(rest@ =~= resp@.skip(20));
    append_compact4(&mut peers, rest);
    let r = AnnounceResponse { peers, interval: u32_be(resp, 8) as u64, warning: None };
    assert(r@.peers =~= compact4_list(resp@.skip(20)));
    Ok(r)
}

/// The host and port of a UDP tracker's URL: what stands between the scheme
/// and the path.
pub open spec fn host_port_of(url: Seq<char>) -> Option<Seq<char>> {
    if has_prefix(url, "udp://"@) {
        Some(up_to_slash(url.skip("udp://"@.len() as int)))
    } else if has_prefix(url, "UDP://"@) {
        Some(up_to_slash(url.skip("UDP://"@.len() as int)))
    } else {
        None
    }
}

pub open spec fn up_to_slash(s: Seq<char>) -> Seq<char> {
    s.take(find_char(s, 0, '/'))
}

/// The host and port of a UDP tracker's URL.
pub fn udp_host_port(url: &str) -> (r: Result<String>)
    ensures
        match host_port_of(url@) {
            Some(s) => r matches Ok(x) && x@ == s,
            None => r matches Err(e) && e@ == Error::Tracker(TrackerError::NotUdp { url: url@ }),
        },
{
    let chars = chars_of(url);
    let rest = match after_prefix(&chars, "udp://") {
        Some(rest) => rest,
        None => match after_prefix(&chars, "UDP://") {
            Some(rest) => rest,
            None => {
                return Err(Error::Tracker(TrackerError::NotUdp { url: url.to_owned() }));
            },
        },
    };
    let end = find_char_from(&rest, 0, '/');
    let r = string_of(&rest, 0, end);
    assert(r@ =~= up_to_slash(rest@));
    Ok(r)
}

/// An announce over UDP, from the first packet to the peer list.
pub struct UdpAnnounce {
    transaction_id: u32,
}

impl UdpAnnounce {
    /// The id that the next response must carry.
    pub closed spec fn expects(&self) -> u32 {
        self.transaction_id
    }

    /// Begin: the connect request to send.
    pub fn start() -> (r: (UdpAnnounce, Vec<u8>))
        ensures
            r.1@ == connect_bytes(r.0.expects()),
            r.1@.len() == 16,
    {
        let transaction_id = random_u32();
        (UdpAnnounce { transaction_id }, build_connect(transaction_id))
    }

    /// The connect response has arrived: the announce request to send.
    pub fn connected(&mut self, resp: &[u8], req: &AnnounceRequest<'_>) -> (r: Result<Vec<u8>>)
        ensures
            match connection_of(resp@, old(self).expects()) {
                Ok(id) => r matches Ok(packet) && packet@.len() == 98 && is_announce(
                    packet@,
                    *req,
                    id,
                    final(self).expects(),
                ),
                Err(e) => r matches Err(Error::Tracker(x)) && x == e && *final(self) == *old(self),
            },
    {
        match parse_connect(resp, self.transaction_id) {
            Err(e) => Err(e),
            Ok(connection_id) => {
                self.transaction_id = random_u32();
                let key = random_u32();
                let packet = build_announce(req, connection_id, self.transaction_id, key);
                assert(is_announce(packet@, *req, connection_id, self.transaction_id));
                Ok(packet)
            },
        }
    }

    /// The announce response has arrived.
    pub fn announced(&self, resp: &[u8]) -> (r: Result<AnnounceResponse>)
        ensures
            match announced_of(resp@, self.expects()) {
                Ok(a) => r matches Ok(x) && x@ == a,
                Err(UdpError::Plain(e)) => r matches Err(Error::Tracker(x)) && x == e,
                Err(UdpError::Message(s)) => r matches Err(Error::Tracker(TrackerError::Udp(t)))
                    && t@ == s,
            },
    {
        parse_announce(resp, self.transaction_id)
    }
}

// Laws

/// A tracker's connect response is accepted by the one who asked, and by nobody else.
pub proof fn lemma_connect_round_trip(transaction_id: u32, connection_id: u64, expected: u32)
    ensures
        connection_of(
            be32(ACTION_CONNECT) + be32(transaction_id) + be64(connection_id),
            expected,
        ) == if transaction_id == expected {
            Ok::<u64, TrackerError>(connection_id)
        } else {
            Err(TrackerError::ConnectTransaction)
        },
{
    let resp = be32(ACTION_CONNECT) + be32(transaction_id) + be64(connection_id);
    assert(resp.subrange(0, 4) =~= be32(ACTION_CONNECT));
    assert(resp.subrange(4, 8) =~= be32(transaction_id));
    assert(resp.subrange(8, 16) =~= be64(connection_id));
    lemma_be_round_trip(resp, 0);
    lemma_be_round_trip(resp, 4);
    lemma_be_round_trip(resp, 8);
}

proof fn lemma_head_fields(req: AnnounceRequest<'_>, connection_id: u64, transaction_id: u32)
    ensures
        ({
            let p = announce_head(req, connection_id, transaction_id);
            &&& p.len() == 56
            &&& p.subrange(0, 8) == be64(connection_id)
            &&& p.subrange(8, 12) == be32(ACTION_ANNOUNCE)
            &&& p.subrange(12, 16) == be32(transaction_id)
            &&& p.subrange(16, 36) == req.info_hash.0@
            &&& p.subrange(36, 56) == req.peer_id.0@
        }),
{
    let p = announce_head(req, connection_id, transaction_id);
    assert(p.subrange(0, 8) =~= be64(connection_id));
    assert(p.subrange(8, 12) =~= be32(ACTION_ANNOUNCE));
    assert(p.subrange(12, 16) =~= be32(transaction_id));
    assert(p.subrange(16, 36) =~= req.info_hash.0@);
    assert(p.subrange(36, 56) =~= req.peer_id.0@);
}

proof fn lemma_tail_fields(req: AnnounceRequest<'_>, key: u32)
    ensures
        ({
            let p = announce_tail(req, key);
            &&& p.len() == 42
            &&& p.subrange(0, 8) == be64(req.downloaded)
            &&& p.subrange(8, 16) == be64(req.left)
            &&& p.subrange(16, 24) == be64(req.uploaded)
            &&& p.subrange(24, 28) == be32(event_code(req.event))
            &&& p.subrange(28, 32) == be32(0)
            &&& p.subrange(32, 36) == be32(key)
            &&& p.subrange(36, 40) == be32(0xffff_ffff)
            &&& p.subrange(40, 42) == be16(req.port)
        }),
{
    let p = announce_tail(req, key);
    assert(p.subrange(0, 8) =~= be64(req.downloaded));
    assert(p.subrange(8, 16) =~= be64(req.left));
    assert(p.subrange(16, 24) =~= be64(req.uploaded));
    assert(p.subrange(24, 28) =~= be32(event_code(req.event)));
    assert(p.subrange(28, 32) =~= be32(0));
    assert(p.subrange(32, 36) =~= be32(key));
    assert(p.subrange(36, 40) =~= be32(0xffff_ffff));
    assert(p.subrange(40, 42) =~= be16(req.port));
}

proof fn lemma_part_of(a: Seq<u8>, b: Seq<u8>, from: int, to: int)
    requires
        0 <= from <= to,
    ensures
        to <= a.len() ==> (a + b).subrange(from, to) == a.subrange(from, to),
        to <= b.len() ==> (a + b).subrange(a.len() + from, a.len() + to) == b.subrange(from, to),
{
    if to <= a.len() {
        assert((a + b).subrange(from, to) =~= a.subrange(from, to));
    }
    if to <= b.len() {
        assert((a + b).subrange(a.len() + from, a.len() + to) =~= b.subrange(from, to));
    }
}

/// The fields of an announce request stand where the protocol wants them.
pub proof fn lemma_announce_fields(
    req: AnnounceRequest<'_>,
    connection_id: u64,
    transaction_id: u32,
    key: u32,
)
    ensures
        ({
            let p = announce_bytes(req, connection_id, transaction_id, key);
            &&& p.len() == 98
            &&& p.subrange(0, 8) == be64(connection_id)
            &&& p.subrange(8, 12) == be32(ACTION_ANNOUNCE)
            &&& p.subrange(12, 16) == be32(transaction_id)
            &&& p.subrange(16, 36) == req.info_hash.0@
            &&& p.subrange(36, 56) == req.peer_id.0@
            &&& p.subrange(56, 64) == be64(req.downloaded)
            &&& p.subrange(64, 72) == be64(req.left)
            &&& p.subrange(72, 80) == be64(req.uploaded)
            &&& p.subrange(80, 84) == be32(event_code(req.event))
            &&& p.subrange(84, 88) == be32(0)
            &&& p.subrange(88, 92) == be32(key)
            &&& p.subrange(92, 96) == be32(0xffff_ffff)
            &&& p.subrange(96, 98) == be16(req.port)
        }),
{
    lemma_head_fields(req, connection_id, transaction_id);
    lemma_tail_fields(req, key);
    let a = announce_head(req, connection_id, transaction_id);
    let b = announce_tail(req, key);
    lemma_part_of(a, b, 0, 8);
    lemma_part_of(a, b, 8, 12);
    lemma_part_of(a, b, 12, 16);
    lemma_part_of(a, b, 16, 36);
    lemma_part_of(a, b, 36, 56);
    lemma_part_of(a, b, 8, 16);
    lemma_part_of(a, b, 16, 24);
    lemma_part_of(a, b, 24, 28);
    lemma_part_of(a, b, 28, 32);
    lemma_part_of(a, b, 32, 36);
    lemma_part_of(a, b, 36, 40);
    lemma_part_of(a, b, 40, 42);
}

/// The numbers that stand for connecting, announcing, errors and events.
pub proof fn lemma_numbers()
    ensures
        ACTION_CONNECT == 0,
        ACTION_ANNOUNCE == 1,
        ACTION_ERROR == 3,
        PROTOCOL_MAGIC == 0x417_2710_1980,
        event_code(Some(Event::Completed)) == 1,
        event_code(Some(Event::Started)) == 2,
        event_code(None) == 2,
        event_code(Some(Event::Stopped)) == 3,
{
}

/// The fields of a connect request stand where the protocol wants them.
pub proof fn lemma_connect_fields(transaction_id: u32)
    ensures
        ({
            let p = connect_bytes(transaction_id);
            &&& p.len() == 16
            &&& from_be64(p, 0) == 0x417_2710_1980
            &&& from_be32(p, 8) == 0
            &&& from_be32(p, 12) == transaction_id
        }),
{
    let p = connect_bytes(transaction_id);
    assert(p.subrange(0, 8) =~= be64(PROTOCOL_MAGIC));
    assert(p.subrange(8, 12) =~= be32(ACTION_CONNECT));
    assert(p.subrange(12, 16) =~= be32(transaction_id));
    lemma_be_round_trip(p, 0);
    lemma_be_round_trip(p, 8);
    lemma_be_round_trip(p, 12);
}

/// The head of a tracker's answer to an announce.
pub open spec fn answer_head(action: u32, transaction_id: u32, interval: u32) -> Seq<u8> {
    be32(action) + be32(transaction_id) + be32(interval)
}

proof fn lemma_answer_head(action: u32, transaction_id: u32, interval: u32, rest: Seq<u8>)
    ensures
        ({
            let p = answer_head(action, transaction_id, interval) + rest;
            &&& p.len() == 12 + rest.len()
            &&& from_be32(p, 0) == action
            &&& from_be32(p, 4) == transaction_id
            &&& from_be32(p, 8) == interval
        }),
{
    let p = answer_head(action, transaction_id, interval) + rest;
    assert(p.subrange(0, 4) =~= be32(action));
    assert(p.subrange(4, 8) =~= be32(transaction_id));
    assert(p.subrange(8, 12) =~= be32(interval));
    lemma_be_round_trip(p, 0);
    lemma_be_round_trip(p, 4);
    lemma_be_round_trip(p, 8);
}

/// The peers that a tracker lists are the ones that the announce finds, in
/// order, with the interval that it names, whatever it counts; an answer to
/// somebody else is refused.
pub proof fn lemma_answer_round_trip(
    transaction_id: u32,
    expected: u32,
    interval: u32,
    counts: Seq<u8>,
    peers: Seq<Endpoint>,
)
    requires
        counts.len() == 8,
        forall|j: int| 0 <= j < peers.len() ==> (#[trigger] peers[j]).ip.len() == 4,
    ensures
        ({
            let resp = answer_head(1, transaction_id, interval) + (counts + compact_all(peers));
            &&& transaction_id == expected ==> announced_of(resp, expected) == Ok::<
                Announced,
                UdpError,
            >(Announced { peers, interval: interval as u64, warning: None })
            &&& transaction_id != expected ==> announced_of(resp, expected) == Err::<
                Announced,
                UdpError,
            >(UdpError::Plain(TrackerError::AnnounceTransaction))
        }),
{
    let rest = counts + compact_all(peers);
    let resp = answer_head(1, transaction_id, interval) + rest;
    lemma_answer_head(1, transaction_id, interval, rest);
    lemma_compact4_round_trip(peers);
    assert(resp.skip(20) =~= compact_all(peers));
}

/// A tracker's error is reported in its words, whatever its transaction; an
/// answer that is too short or of another kind is refused.
pub proof fn lemma_answer_refused(
    action: u32,
    transaction_id: u32,
    interval: u32,
    rest: Seq<u8>,
    resp: Seq<u8>,
    message: Seq<char>,
    expected: u32,
)
    requires
        rest.len() >= 8,
    ensures
        resp.len() < 20 ==> announced_of(resp, expected) == Err::<Announced, UdpError>(
            UdpError::Plain(TrackerError::AnnounceTooShort { len: resp.len() as usize }),
        ),
        action != 1 && action != 3 ==> announced_of(
            answer_head(action, transaction_id, interval) + rest,
            expected,
        ) == Err::<Announced, UdpError>(UdpError::Plain(TrackerError::AnnounceAction(action))),
        be32(interval) + rest == encode_utf8(message) ==> announced_of(
            answer_head(3, transaction_id, interval) + rest,
            expected,
        ) == Err::<Announced, UdpError>(UdpError::Message(message)),
{
    lemma_answer_head(action, transaction_id, interval, rest);
    lemma_answer_head(3, transaction_id, interval, rest);
    let p = answer_head(3, transaction_id, interval) + rest;
    assert(p.skip(8) =~= be32(interval) + rest);
    encode_utf8_valid_utf8(message);
    encode_utf8_decode_utf8(message);
}

/// A connect response that is too short or of another kind is refused.
pub proof fn lemma_connect_refused(resp: Seq<u8>, expected: u32)
    ensures
        resp.len() < 16 ==> connection_of(resp, expected) == Err::<u64, TrackerError>(
            TrackerError::ConnectTooShort,
        ),
        resp.len() >= 16 && from_be32(resp, 0) != 0 ==> connection_of(resp, expected) == Err::<
            u64,
            TrackerError,
        >(TrackerError::ConnectAction(from_be32(resp, 0))),
{
}

/// The host and the port of a tracker stand between the scheme and the path.
pub proof fn lemma_host_port(host: Seq<char>, path: Seq<char>)
    requires
        forall|i: int| 0 <= i < host.len() ==> #[trigger] host[i] != '/',
    ensures
        host_port_of("udp://"@ + host) == Some(host),
        host_port_of("UDP://"@ + host) == Some(host),
        host_port_of("udp://"@ + (host.push('/') + path)) == Some(host),
        host_port_of("UDP://"@ + (host.push('/') + path)) == Some(host),
{
    reveal_strlit("udp://");
    reveal_strlit("UDP://");
    let rest = host.push('/') + path;
    lemma_find_char(host, 0, '/');
    lemma_find_char(rest, 0, '/');
    assert(rest[host.len() as int] == '/');
    assert(forall|i: int| 0 <= i < host.len() ==> rest[i] == host[i]);
    assert(find_char(rest, 0, '/') == host.len());
    assert(rest.take(host.len() as int) =~= host);
    assert(host.take(host.len() as int) =~= host);
    assert(("udp://"@ + host).take(6) =~= "udp://"@);
    assert(("udp://"@ + host).skip(6) =~= host);
    assert(("udp://"@ + rest).take(6) =~= "udp://"@);
    assert(("udp://"@ + rest).skip(6) =~= rest);
    assert(("UDP://"@ + host).take(6) =~= "UDP://"@);
    assert(("UDP://"@ + host).skip(6) =~= host);
    assert(("UDP://"@ + rest).take(6) =~= "UDP://"@);
    assert(("UDP://"@ + rest).skip(6) =~= rest);
    assert(("UDP://"@ + host)[0] == 'U' && ("UDP://"@ + rest)[0] == 'U');
    assert("udp://"@[0] == 'u');
    assert(("UDP://"@ + host).take(6)[0] == 'U' && ("UDP://"@ + rest).take(6)[0] == 'U');
}

/// Every announce request names the connection, the transaction, the torrent,
/// us, and the port that we listen on, whatever its key.
pub proof fn lemma_announce_names(
    packet: Seq<u8>,
    req: AnnounceRequest<'_>,
    connection_id: u64,
    transaction_id: u32,
)
    requires
        is_announce(packet, req, connection_id, transaction_id),
    ensures
        packet.len() == 98,
        from_be64(packet, 0) == connection_id,
        from_be32(packet, 8) == 1,
        from_be32(packet, 12) == transaction_id,
        packet.subrange(16, 36) == req.info_hash.0@,
        packet.subrange(36, 56) == req.peer_id.0@,
        from_be64(packet, 56) == req.downloaded,
        from_be64(packet, 64) == req.left,
        from_be64(packet, 72) == req.uploaded,
        from_be16(packet, 96) == req.port,
{
    let key = choose|key: u32|
        packet == #[trigger] announce_bytes(req, connection_id, transaction_id, key);
    lemma_announce_fields(req, connection_id, transaction_id, key);
    lemma_be_round_trip(packet, 0);
    lemma_be_round_trip(packet, 8);
    lemma_be_round_trip(packet, 12);
    lemma_be_round_trip(packet, 56);
    lemma_be_round_trip(packet, 64);
    lemma_be_round_trip(packet, 72);
    lemma_be_round_trip(packet, 96);
}

} // verus!

//! HTTP tracker announce (BEP-3) with compact peer response parsing.

use vstd::prelude::*;
use vstd::string::StringSliceAdditionalSpecFns;
use vstd::utf8::{encode_utf8, encode_utf8_decode_utf8, encode_utf8_valid_utf8};

use super::{event_name, AnnounceRequest, AnnounceResponse, Announced, Event};
use crate::bencode::{
    decode, encode, finite, lemma_decode_encode, lemma_trees_of, lengths_fit, trees_of, value_at,
    Tree, Value,
};
use crate::error::{BencodeError, Error, Result, TrackerError};
use crate::text::{
    append_signed_decimal, ascii_chars, chars_of, decimal, find_char, find_char_from, is_digit,
    lemma_decimal, lemma_find_char, lemma_i64_of_signed_decimal, opt_text, push_ascii,
    push_decimal, signed_decimal, MINUS,
};
use crate::types::{
    append_compact4, append_compact6, compact4_list, compact6_list, compact_all, endpoints,
    is_url_char, lemma_compact4_round_trip, lemma_compact6_round_trip, lemma_percent_is_safe,
    percent_all, percent_reserved, Endpoint, IpAddr, PeerAddr,
};

verus! {

// Request

/// The character that joins the query of an announce to the tracker's URL.
pub open spec fn separator(url: Seq<char>) -> char {
    if url.contains('?') {
        '&'
    } else {
        '?'
    }
}

/// The URL of an announce without an event.
pub open spec fn plain_url(req: AnnounceRequest<'_>) -> Seq<char> {
    req.tracker_url@.push(separator(req.tracker_url@)) + "info_hash="@ + percent_all(
        req.info_hash.0@,
    ) + "&peer_id="@ + percent_reserved(req.peer_id.0@) + "&port="@ + ascii_chars(
        decimal(req.port as nat),
    ) + "&uploaded="@ + ascii_chars(decimal(req.uploaded as nat)) + "&downloaded="@ + ascii_chars(
        decimal(req.downloaded as nat),
    ) + "&left="@ + ascii_chars(decimal(req.left as nat)) + "&compact=1&numwant="@ + ascii_chars(
        signed_decimal(req.num_want as int),
    )
}

/// The URL of an announce.
pub open spec fn announce_url(req: AnnounceRequest<'_>) -> Seq<char> {
    match req.event {
        Some(e) => plain_url(req) + "&event="@ + event_name(e),
        None => plain_url(req),
    }
}

fn has_query(url: &str) -> (r: bool)
    ensures
        r == url@.contains('?'),
{
    let chars = chars_of(url);
    proof {
        lemma_find_char(url@, 0, '?');
    }
    find_char_from(&chars, 0, '?') < chars.len()
}

fn push_signed(out: &mut String, n: i32)
    ensures
        final(out)@ == old(out)@ + ascii_chars(signed_decimal(n as int)),
{
    let mut digits: Vec<u8> = Vec::new();
    append_signed_decimal(&mut digits, n as i64);
    assert(digits@ =~= signed_decimal(n as int));
    proof {
        lemma_i64_of_signed_decimal(n as i64);
        assert forall|i: int| 0 <= i < digits@.len() implies #[trigger] digits@[i] < 0x80 by {
            assert(0x30 <= digits@[i] <= 0x39 || digits@[i] == MINUS);
        }
    }
    push_ascii(out, digits.as_slice());
}

/// The URL to fetch for an announce.
pub fn build_url(req: &AnnounceRequest<'_>) -> (url: String)
    ensures
        url@ == announce_url(*req),
{
    let mut url = String::new();
    url.push_str(req.tracker_url);
    assert(url@ =~= req.tracker_url@);
    if has_query(req.tracker_url) {
        url.push('&');
    } else {
        url.push('?');
    }
    url.push_str("info_hash=");
    url.push_str(req.info_hash.url_encode().as_str());
    url.push_str("&peer_id=");
    url.push_str(req.peer_id.url_encode().as_str());
    url.push_str("&port=");
    push_decimal(&mut url, req.port as u64);
    url.push_str("&uploaded=");
    push_decimal(&mut url, req.uploaded);
    url.push_str("&downloaded=");
    push_decimal(&mut url, req.downloaded);
    url.push_str("&left=");
    push_decimal(&mut url, req.left);
    url.push_str("&compact=1&numwant=");
    push_signed(&mut url, req.num_want);
    assert(url@ == plain_url(*req));
    if let Some(e) = req.event {
        url.push_str("&event=");
        url.push_str(e.as_str());
    }
    url
}

// Response

/// What a tracker's answer holds. Peers that are listed with the text of their
/// address are kept apart, in their order, until the text has been read.
pub struct TrackerReply {
    pub peers: Vec<PeerAddr>,
    pub listed: Vec<(String, u16)>,
    pub interval: u64,
    pub warning: Option<String>,
}

/// The content of a [`TrackerReply`].
#[verifier::ext_equal]
pub struct Reply {
    pub peers: Seq<Endpoint>,
    pub listed: Seq<(Seq<char>, u16)>,
    pub interval: u64,
    pub warning: Option<Seq<char>>,
}

/// Why a tracker's answer is refused.
pub enum ReplyError {
    Bencode(BencodeError<Seq<char>>),
    Failure(Seq<char>),
    CompactPeersLength(int),
}

/// The texts and ports of a peer list.
pub open spec fn listed_texts(s: Seq<(String, u16)>) -> Seq<(Seq<char>, u16)> {
    s.map_values(|p: (String, u16)| (p.0@, p.1))
}

impl View for TrackerReply {
    type V = Reply;

    open spec fn view(&self) -> Reply {
        Reply {
            peers: endpoints(self.peers@),
            listed: listed_texts(self.listed@),
            interval: self.interval,
            warning: opt_text(self.warning),
        }
    }
}

/// The port of an entry of a peer list; 0 if there is none.
pub open spec fn entry_port(entry: Tree) -> u16 {
    match entry.get_int("port".spec_bytes()) {
        Some(n) => n as u16,
        None => 0,
    }
}

/// The text of the address of an entry of a peer list.
pub open spec fn entry_ip(entry: Tree) -> Seq<char> {
    match entry.get_str("ip".spec_bytes()) {
        Some(s) => s,
        None => ""@,
    }
}

/// The entries of a peer list that have a port.
pub open spec fn listed_of(list: Seq<Tree>) -> Seq<(Seq<char>, u16)>
    decreases list.len(),
{
    if list.len() == 0 {
        seq![]
    } else if entry_port(list.last()) != 0 {
        listed_of(list.drop_last()).push((entry_ip(list.last()), entry_port(list.last())))
    } else {
        listed_of(list.drop_last())
    }
}

/// The compact peers of an answer: those with IPv4 addresses, then those with
/// IPv6 addresses if their list is whole.
pub open spec fn compact_peers(t: Tree) -> Seq<Endpoint> {
    (match t.get_bytes("peers".spec_bytes()) {
        Some(raw) => compact4_list(raw),
        None => seq![],
    }) + (match t.get_bytes("peers6".spec_bytes()) {
        Some(raw) => if raw.len() % 18 == 0 {
            compact6_list(raw)
        } else {
            seq![]
        },
        None => seq![],
    })
}

/// What a decoded answer holds.
pub open spec fn reply_from(t: Tree) -> std::result::Result<Reply, ReplyError> {
    match t.get_str("failure reason".spec_bytes()) {
        Some(reason) => Err(ReplyError::Failure(reason)),
        None => match t.get_bytes("peers".spec_bytes()) {
            Some(raw) => if raw.len() % 6 != 0 {
                Err(ReplyError::CompactPeersLength(raw.len() as int))
            } else {
                Ok(reply_with(t))
            },
            None => Ok(reply_with(t)),
        },
    }
}

pub open spec fn reply_with(t: Tree) -> Reply {
    Reply {
        peers: compact_peers(t),
        listed: match t.get_list("peers".spec_bytes()) {
            Some(list) => listed_of(list),
            None => seq![],
        },
        interval: match t.get_int("interval".spec_bytes()) {
            Some(n) => n as u64,
            None => 1800,
        },
        warning: t.get_str("warning message".spec_bytes()),
    }
}

/// What the body of a tracker's answer holds.
pub open spec fn reply_of(body: Seq<u8>) -> std::result::Result<Reply, ReplyError> {
    match value_at(body, 0) {
        Err(e) => Err(ReplyError::Bencode(e)),
        Ok((t, _)) => reply_from(t),
    }
}

fn parse_listed(list: &[Value]) -> (r: Vec<(String, u16)>)
    ensures
        listed_texts(r@) == listed_of(trees_of(list@)),
{
    let ghost trees = trees_of(list@);
    proof {
        lemma_trees_of(list@);
        assert(trees.take(0) =~= seq![]);
    }
    let mut out: Vec<(String, u16)> = Vec::new();
    let mut i: usize = 0;
    assert(listed_texts(out@) =~= seq![]);
    while i < list.len()
        invariant
            i <= list.len(),
            trees == trees_of(list@),
            trees.len() == list@.len(),
            forall|j: int| 0 <= j < trees.len() ==> #[trigger] trees[j] == list@[j]@,
            listed_texts(out@) == listed_of(trees.take(i as int)),
        decreases list.len() - i,
    {
        let entry = &list[i];
        proof {
            assert(trees.take(i + 1).drop_last() =~= trees.take(i as int));
            assert(trees.take(i + 1).last() == entry@);
        }
        let port: u16 = match entry.get_int("port".as_bytes()) {
            Some(n) => n as u16,
            None => 0,
        };
        if port != 0 {
            let ip = match entry.get_str("ip".as_bytes()) {
                Some(s) => s,
                None => "",
            };
            let ghost before = out@;
            out.push((ip.to_owned(), port));
            assert(listed_texts(out@) =~= listed_texts(before).push((ip@, port)));
        }
        i = i + 1;
    }
    assert(trees.take(i as int) =~= trees);
    out
}

/// Read the body of a tracker's answer.
pub fn parse_response(body: &[u8]) -> (r: Result<TrackerReply>)
    ensures
        match reply_of(body@) {
            Ok(reply) => r matches Ok(x) && x@ == reply,
            Err(ReplyError::Bencode(e)) => r matches Err(x) && x@ == Error::Bencode(e),
            Err(ReplyError::Failure(reason)) => r matches Err(Error::Tracker(TrackerError::Failure(s)))
                && s@ == reason,
            Err(ReplyError::CompactPeersLength(n)) => r matches Err(
                Error::Tracker(TrackerError::CompactPeersLength { len }),
            ) && len == n,
        },
{
    let val = match decode(body) {
        Ok(val) => val,
        Err(e) => {
            return Err(e);
        },
    };
    if let Some(reason) = val.get_str("failure reason".as_bytes()) {
        return Err(Error::Tracker(TrackerError::Failure(reason.to_owned())));
    }
    let warning: Option<String> = match val.get_str("warning message".as_bytes()) {
        Some(s) => Some(s.to_owned()),
        None => None,
    };
    let interval: u64 = match val.get_int("interval".as_bytes()) {
        Some(n) => n as u64,
        None => 1800,
    };
    let mut peers: Vec<PeerAddr> = Vec::new();
    assert(endpoints(peers@) =~= seq![]);
    if let Some(raw) = val.get_bytes("peers".as_bytes()) {
        if raw.len() % 6 != 0 {
            return Err(
                Error::Tracker(TrackerError::CompactPeersLength { len: raw.len() }),
            );
        }
        append_compact4(&mut peers, raw);
    }
    if let Some(raw) = val.get_bytes("peers6".as_bytes()) {
        if raw.len() % 18 == 0 {
            append_compact6(&mut peers, raw);
        }
    }
    assert(endpoints(peers@) =~= compact_peers(val@));
    let listed: Vec<(String, u16)> = match val.get_list("peers".as_bytes()) {
        Some(list) => parse_listed(list),
        None => Vec::new(),
    };
    assert(val@.get_list("peers".spec_bytes()) is None ==> listed_texts(listed@) =~= seq![]);
    Ok(TrackerReply { peers, listed, interval, warning })
}

/// The listed peers whose address could be read.
pub open spec fn resolved(
    listed: Seq<(Seq<char>, u16)>,
    addrs: Seq<Option<IpAddr>>,
) -> Seq<Endpoint>
    decreases listed.len(),
{
    if listed.len() == 0 {
        seq![]
    } else {
        let head = resolved(listed.drop_last(), addrs);
        if listed.len() <= addrs.len() {
            match addrs[listed.len() - 1] {
                Some(ip) => head.push(Endpoint { ip: ip.octets(), port: listed.last().1 }),
                None => head,
            }
        } else {
            head
        }
    }
}

impl TrackerReply {
    /// The announce response, given what the texts of the listed peers'
    /// addresses stand for.
    pub fn with_addresses(self, addrs: &Vec<Option<IpAddr>>) -> (r: AnnounceResponse)
        requires
            addrs@.len() == self@.listed.len(),
        ensures
            r@ == (Announced {
                peers: self@.peers + resolved(self@.listed, addrs@),
                interval: self@.interval,
                warning: self@.warning,
            }),
    {
        let ghost listed = self@.listed;
        let TrackerReply { peers, listed: entries, interval, warning } = self;
        let mut peers = peers;
        let ghost compact = endpoints(peers@);
        let mut i: usize = 0;
        assert(listed.take(0) =~= seq![]);
        assert(compact =~= compact + resolved(listed.take(0), addrs@));
        while i < entries.len()
            invariant
                i <= entries.len(),
                listed == listed_texts(entries@),
                addrs@.len() == entries@.len(),
                endpoints(peers@) == compact + resolved(listed.take(i as int), addrs@),
            decreases entries.len() - i,
        {
            proof {
                assert(listed.take(i + 1).drop_last() =~= listed.take(i as int));
                assert(listed.take(i + 1).last() == (entries@[i as int].0@, entries@[i as int].1));
            }
            if let Some(ip) = addrs[i] {
                let ghost before = peers@;
                let port: u16 = entries[i].1;
                peers.push(PeerAddr { ip, port });
                assert(endpoints(peers@) =~= endpoints(before).push(
                    Endpoint { ip: ip.octets(), port },
                ));
            }
            assert(endpoints(peers@) =~= compact + resolved(listed.take(i + 1), addrs@));
            i = i + 1;
        }
        assert(listed.take(i as int) =~= listed);
        AnnounceResponse { peers, interval, warning }
    }
}

// Laws

/// What an answer is read as is the dictionary that it encodes, whatever
/// follows it.
proof fn lemma_body(m: Map<Seq<u8>, Tree>, rest: Seq<u8>)
    requires
        finite(Tree::Dict(m)),
        lengths_fit(Tree::Dict(m)),
    ensures
        reply_of(encode(Tree::Dict(m)) + rest) == reply_from(Tree::Dict(m)),
{
    lemma_decode_encode(Tree::Dict(m), rest);
}

/// An answer with compact peers lists exactly those: the ones with IPv4
/// addresses, and then the ones with IPv6 addresses.
pub proof fn lemma_peers_are_listed(
    m: Map<Seq<u8>, Tree>,
    v4: Seq<Endpoint>,
    v6: Seq<Endpoint>,
    rest: Seq<u8>,
)
    requires
        finite(Tree::Dict(m)),
        lengths_fit(Tree::Dict(m)),
        !m.contains_key("failure reason".spec_bytes()),
        forall|j: int| 0 <= j < v4.len() ==> (#[trigger] v4[j]).ip.len() == 4,
        forall|j: int| 0 <= j < v6.len() ==> (#[trigger] v6[j]).ip.len() == 16,
        v4.len() > 0 ==> m.contains_key("peers".spec_bytes()),
        m.contains_key("peers".spec_bytes()) ==> m["peers".spec_bytes()] == Tree::Bytes(
            compact_all(v4),
        ),
        v6.len() > 0 ==> m.contains_key("peers6".spec_bytes()),
        m.contains_key("peers6".spec_bytes()) ==> m["peers6".spec_bytes()] == Tree::Bytes(
            compact_all(v6),
        ),
    ensures
        reply_of(encode(Tree::Dict(m)) + rest) matches Ok(r) && r.peers == v4 + v6 && r.listed
            == Seq::<(Seq<char>, u16)>::empty(),
{
    lemma_body(m, rest);
    lemma_compact4_round_trip(v4);
    lemma_compact6_round_trip(v6);
    if !m.contains_key("peers".spec_bytes()) {
        assert(v4 =~= seq![]);
    }
    if !m.contains_key("peers6".spec_bytes()) {
        assert(v6 =~= seq![]);
    }
}

/// A list of IPv6 peers that is cut off is left out, and the others are still
/// listed.
pub proof fn lemma_cut_off_peers6(
    m: Map<Seq<u8>, Tree>,
    v4: Seq<Endpoint>,
    raw: Seq<u8>,
    rest: Seq<u8>,
)
    requires
        finite(Tree::Dict(m)),
        lengths_fit(Tree::Dict(m)),
        !m.contains_key("failure reason".spec_bytes()),
        forall|j: int| 0 <= j < v4.len() ==> (#[trigger] v4[j]).ip.len() == 4,
        m.contains_key("peers".spec_bytes()),
        m["peers".spec_bytes()] == Tree::Bytes(compact_all(v4)),
        m.contains_key("peers6".spec_bytes()),
        m["peers6".spec_bytes()] == Tree::Bytes(raw),
        raw.len() % 18 != 0,
    ensures
        reply_of(encode(Tree::Dict(m)) + rest) matches Ok(r) && r.peers == v4,
{
    lemma_body(m, rest);
    lemma_compact4_round_trip(v4);
    assert(v4 + Seq::<Endpoint>::empty() =~= v4);
}

/// A list of IPv4 peers that is cut off makes the answer an error; such a list
/// of IPv6 peers, or one of another kind, is left out.
pub proof fn lemma_odd_peers(m: Map<Seq<u8>, Tree>, raw: Seq<u8>, rest: Seq<u8>)
    requires
        finite(Tree::Dict(m)),
        lengths_fit(Tree::Dict(m)),
        !m.contains_key("failure reason".spec_bytes()),
    ensures
        m.contains_key("peers".spec_bytes()) && m["peers".spec_bytes()] == Tree::Bytes(raw)
            && raw.len() % 6 != 0 ==> reply_of(encode(Tree::Dict(m)) + rest) == Err::<
            Reply,
            ReplyError,
        >(ReplyError::CompactPeersLength(raw.len() as int)),
        !m.contains_key("peers".spec_bytes()) && (!m.contains_key("peers6".spec_bytes()) || (
        m["peers6".spec_bytes()] matches Tree::Bytes(b) && b.len() % 18 != 0)) ==> (reply_of(
            encode(Tree::Dict(m)) + rest,
        ) matches Ok(r) && r.peers == Seq::<Endpoint>::empty()),
{
    lemma_body(m, rest);
}

/// A refusal is reported with the reason that the tracker gives, whatever else
/// the answer holds.
pub proof fn lemma_refusal(m: Map<Seq<u8>, Tree>, reason: Seq<char>, rest: Seq<u8>)
    requires
        finite(Tree::Dict(m)),
        lengths_fit(Tree::Dict(m)),
        m.contains_key("failure reason".spec_bytes()),
        m["failure reason".spec_bytes()] == Tree::Bytes(encode_utf8(reason)),
    ensures
        reply_of(encode(Tree::Dict(m)) + rest) == Err::<Reply, ReplyError>(
            ReplyError::Failure(reason),
        ),
{
    lemma_body(m, rest);
    encode_utf8_valid_utf8(reason);
    encode_utf8_decode_utf8(reason);
}

/// The interval and the warning are those of the answer; without an interval it
/// is half an hour.
pub proof fn lemma_interval_and_warning(m: Map<Seq<u8>, Tree>, warning: Seq<char>, rest: Seq<u8>)
    requires
        finite(Tree::Dict(m)),
        lengths_fit(Tree::Dict(m)),
    ensures
        reply_of(encode(Tree::Dict(m)) + rest) matches Ok(r) ==> {
            &&& !m.contains_key("interval".spec_bytes()) ==> r.interval == 1800
            &&& m.contains_key("interval".spec_bytes()) && (m["interval".spec_bytes()] matches Tree::Int(
                n,
            ) && n >= 0) ==> m["interval".spec_bytes()] == Tree::Int(r.interval as i64)
                && r.interval <= i64::MAX
            &&& !m.contains_key("warning message".spec_bytes()) ==> r.warning is None
            &&& m.contains_key("warning message".spec_bytes()) && m["warning message".spec_bytes()]
                == Tree::Bytes(encode_utf8(warning)) ==> r.warning == Some(warning)
        },
{
    lemma_body(m, rest);
    encode_utf8_valid_utf8(warning);
    encode_utf8_decode_utf8(warning);
}

/// An entry of a peer list that is not compact.
pub open spec fn is_entry(t: Tree, ip: Seq<char>, port: u16) -> bool {
    t matches Tree::Dict(m) && {
        &&& m.contains_key("ip".spec_bytes())
        &&& m["ip".spec_bytes()] == Tree::Bytes(encode_utf8(ip))
        &&& m.contains_key("port".spec_bytes())
        &&& m["port".spec_bytes()] == Tree::Int(port as i64)
    }
}

proof fn lemma_listed_entries(list: Seq<Tree>, entries: Seq<(Seq<char>, u16)>)
    requires
        list.len() == entries.len(),
        forall|i: int|
            0 <= i < list.len() ==> is_entry(#[trigger] list[i], entries[i].0, entries[i].1)
                && entries[i].1 != 0,
    ensures
        listed_of(list) == entries,
    decreases list.len(),
{
    if list.len() > 0 {
        let n = list.len() - 1;
        assert(is_entry(list[n], entries[n].0, entries[n].1));
        encode_utf8_valid_utf8(entries[n].0);
        encode_utf8_decode_utf8(entries[n].0);
        assert forall|i: int| 0 <= i < list.drop_last().len() implies is_entry(
            #[trigger] list.drop_last()[i],
            entries.drop_last()[i].0,
            entries.drop_last()[i].1,
        ) && entries.drop_last()[i].1 != 0 by {
            assert(is_entry(list[i], entries[i].0, entries[i].1));
        }
        lemma_listed_entries(list.drop_last(), entries.drop_last());
        assert(entries.drop_last().push((entries[n].0, entries[n].1)) =~= entries);
    } else {
        assert(entries =~= seq![]);
    }
}

/// A peer list that is not compact is handed on entry by entry, in its order;
/// the compact peers are then those with IPv6 addresses.
pub proof fn lemma_entries_are_listed(
    m: Map<Seq<u8>, Tree>,
    list: Seq<Tree>,
    entries: Seq<(Seq<char>, u16)>,
    v6: Seq<Endpoint>,
    rest: Seq<u8>,
)
    requires
        finite(Tree::Dict(m)),
        lengths_fit(Tree::Dict(m)),
        !m.contains_key("failure reason".spec_bytes()),
        forall|j: int| 0 <= j < v6.len() ==> (#[trigger] v6[j]).ip.len() == 16,
        v6.len() > 0 ==> m.contains_key("peers6".spec_bytes()),
        m.contains_key("peers6".spec_bytes()) ==> m["peers6".spec_bytes()] == Tree::Bytes(
            compact_all(v6),
        ),
        m.contains_key("peers".spec_bytes()),
        m["peers".spec_bytes()] == Tree::List(list),
        list.len() == entries.len(),
        forall|i: int|
            0 <= i < list.len() ==> is_entry(#[trigger] list[i], entries[i].0, entries[i].1)
                && entries[i].1 != 0,
    ensures
        reply_of(encode(Tree::Dict(m)) + rest) matches Ok(r) && r.listed == entries && r.peers
            == v6,
{
    lemma_body(m, rest);
    lemma_listed_entries(list, entries);
    lemma_compact6_round_trip(v6);
    if !m.contains_key("peers6".spec_bytes()) {
        assert(v6 =~= seq![]);
    }
    assert(Seq::<Endpoint>::empty() + v6 =~= v6);
}

/// An entry without a port counts for nothing, wherever it stands.
pub proof fn lemma_no_port(before: Seq<Tree>, entry: Tree, after: Seq<Tree>)
    requires
        entry.get_int("port".spec_bytes()) is None || entry.get_int("port".spec_bytes())
            == Some(0i64),
    ensures
        listed_of(before + seq![entry] + after) == listed_of(before + after),
    decreases after.len(),
{
    if after.len() == 0 {
        assert((before + seq![entry] + after).drop_last() =~= before);
        assert(before + after =~= before);
        assert((before + seq![entry] + after).last() == entry);
    } else {
        lemma_no_port(before, entry, after.drop_last());
        assert((before + seq![entry] + after).drop_last() =~= before + seq![entry]
            + after.drop_last());
        assert((before + after).drop_last() =~= before + after.drop_last());
    }
}

/// Listed peers are added with the addresses that their texts stand for.
pub proof fn lemma_resolved(listed: Seq<(Seq<char>, u16)>, ips: Seq<IpAddr>)
    requires
        listed.len() == ips.len(),
    ensures
        resolved(listed, ips.map_values(|ip: IpAddr| Some(ip))) == Seq::new(
            listed.len(),
            |i: int| Endpoint { ip: ips[i].octets(), port: listed[i].1 },
        ),
{
    lemma_resolved_prefix(listed, ips, listed.len() as int);
    assert(listed.take(listed.len() as int) =~= listed);
}

proof fn lemma_resolved_prefix(listed: Seq<(Seq<char>, u16)>, ips: Seq<IpAddr>, n: int)
    requires
        listed.len() == ips.len(),
        0 <= n <= listed.len(),
    ensures
        resolved(listed.take(n), ips.map_values(|ip: IpAddr| Some(ip))) == Seq::new(
            n as nat,
            |i: int| Endpoint { ip: ips[i].octets(), port: listed[i].1 },
        ),
    decreases n,
{
    let all = Seq::new(n as nat, |i: int| Endpoint { ip: ips[i].octets(), port: listed[i].1 });
    if n > 0 {
        lemma_resolved_prefix(listed, ips, n - 1);
        assert(listed.take(n).drop_last() =~= listed.take(n - 1));
    }
    assert(resolved(listed.take(n), ips.map_values(|ip: IpAddr| Some(ip))) =~= all);
}

/// A listed peer whose address cannot be read counts for nothing.
pub proof fn lemma_unresolved(
    listed: Seq<(Seq<char>, u16)>,
    addrs: Seq<Option<IpAddr>>,
    i: int,
)
    requires
        listed.len() == addrs.len(),
        0 <= i < listed.len(),
        addrs[i] is None,
    ensures
        resolved(listed, addrs) == resolved(listed.remove(i), addrs.remove(i)),
{
    lemma_unresolved_prefix(listed, addrs, i, listed.len() as int);
    assert(listed.take(listed.len() as int) =~= listed);
    assert(listed.remove(i).take(listed.len() - 1) =~= listed.remove(i));
}

proof fn lemma_unresolved_prefix(
    listed: Seq<(Seq<char>, u16)>,
    addrs: Seq<Option<IpAddr>>,
    i: int,
    n: int,
)
    requires
        listed.len() == addrs.len(),
        0 <= i < listed.len(),
        addrs[i] is None,
        0 <= n <= listed.len(),
    ensures
        n <= i ==> resolved(listed.take(n), addrs) == resolved(
            listed.remove(i).take(n),
            addrs.remove(i),
        ),
        n > i ==> resolved(listed.take(n), addrs) == resolved(
            listed.remove(i).take(n - 1),
            addrs.remove(i),
        ),
    decreases n,
{
    let less = listed.remove(i);
    if n > 0 {
        lemma_unresolved_prefix(listed, addrs, i, n - 1);
        assert(listed.take(n).drop_last() =~= listed.take(n - 1));
        if n <= i {
            assert(less.take(n).drop_last() =~= less.take(n - 1));
            assert(less.take(n).last() == listed[n - 1]);
            assert(addrs.remove(i)[n - 1] == addrs[n - 1]);
        } else if n > i + 1 {
            assert(less.take(n - 1).drop_last() =~= less.take(n - 2));
            assert(less.take(n - 1).last() == listed[n - 1]);
            assert(addrs.remove(i)[n - 2] == addrs[n - 1]);
        } else {
            assert(less.take(n - 1) =~= listed.take(n - 1));
        }
    }
}

/// What a tracker reads under a key of a query: the value of the first
/// parameter with that key, from a position on.
pub open spec fn query_value(q: Seq<char>, from: int, key: Seq<char>) -> Option<Seq<char>>
    decreases q.len() - from,
{
    let end = find_char(q, from, '&');
    let part = q.subrange(from, end);
    let eq = find_char(part, 0, '=');
    if from < 0 || end < from {
        None
    } else if eq < part.len() && part.take(eq) == key {
        Some(part.skip(eq + 1))
    } else if end < q.len() {
        query_value(q, end + 1, key)
    } else {
        None
    }
}

proof fn lemma_query_skip(q: Seq<char>, n: int, from: int, key: Seq<char>)
    requires
        0 <= n,
        0 <= from,
        n + from <= q.len(),
    ensures
        query_value(q, n + from, key) == query_value(q.skip(n), from, key),
    decreases q.len() - n - from,
{
    let tail = q.skip(n);
    lemma_find_char(q, n + from, '&');
    lemma_find_char(tail, from, '&');
    let end = find_char(tail, from, '&');
    assert(forall|i: int| 0 <= i < tail.len() ==> tail[i] == q[n + i]);
    assert(find_char(q, n + from, '&') == n + end) by {
        let other = find_char(q, n + from, '&');
        if other < n + end {
            assert(tail[other - n] == '&');
        } else if other > n + end {
            assert(q[n + end] == tail[end]);
        }
    }
    assert(q.subrange(n + from, n + end) =~= tail.subrange(from, end));
    if end < tail.len() {
        lemma_query_skip(q, n, end + 1, key);
    }
}

/// A parameter of a query, and what follows it.
spec fn param(key: Seq<char>, value: Seq<char>, tail: Seq<char>) -> Seq<char> {
    key + (seq!['='] + (value + tail))
}

proof fn lemma_query_param(key: Seq<char>, value: Seq<char>, tail: Seq<char>, k: Seq<char>)
    requires
        forall|i: int| 0 <= i < key.len() ==> #[trigger] key[i] != '&' && key[i] != '=',
        forall|i: int| 0 <= i < value.len() ==> #[trigger] value[i] != '&',
        tail.len() > 0 ==> tail[0] == '&',
    ensures
        query_value(param(key, value, tail), 0, k) == if k == key {
            Some(value)
        } else if tail.len() == 0 {
            None
        } else {
            query_value(tail.drop_first(), 0, k)
        },
{
    let q = param(key, value, tail);
    let n = key.len() as int;
    let m = n + 1 + value.len();
    assert forall|i: int| 0 <= i < m implies q[i] != '&' by {
        if i < n {
            assert(q[i] == key[i]);
        } else if i > n {
            assert(q[i] == value[i - n - 1]);
        }
    }
    if tail.len() > 0 {
        assert(q[m] == tail[0]);
    }
    lemma_find_char(q, 0, '&');
    assert(find_char(q, 0, '&') == m);
    let part = q.subrange(0, m);
    lemma_find_char(part, 0, '=');
    assert(part[n] == '=');
    assert forall|i: int| 0 <= i < n implies part[i] != '=' by {
        assert(part[i] == key[i]);
    }
    assert(find_char(part, 0, '=') == n);
    assert(part.take(n) =~= key);
    assert(part.skip(n + 1) =~= value);
    if tail.len() > 0 {
        assert(q.skip(m + 1) =~= tail.drop_first());
        lemma_query_skip(q, m + 1, 0, k);
    }
}

proof fn lemma_plain_digits(s: Seq<u8>)
    requires
        forall|i: int| 0 <= i < s.len() ==> is_digit(#[trigger] s[i]) || s[i] == MINUS,
    ensures
        forall|i: int| 0 <= i < ascii_chars(s).len() ==> #[trigger] ascii_chars(s)[i] != '&',
{
    assert forall|i: int| 0 <= i < ascii_chars(s).len() implies #[trigger] ascii_chars(s)[i]
        != '&' by {
        assert(is_digit(s[i]) || s[i] == MINUS);
    }
}

proof fn lemma_plain_decimal(n: nat)
    ensures
        forall|i: int|
            0 <= i < ascii_chars(decimal(n)).len() ==> #[trigger] ascii_chars(decimal(n))[i] != '&',
{
    lemma_decimal(n);
    lemma_plain_digits(decimal(n));
}

/// The end of an announce URL: the event, if there is one.
spec fn event_tail(req: AnnounceRequest<'_>) -> Seq<char> {
    match req.event {
        Some(e) => seq!['&'] + param("event"@, event_name(e), seq![]),
        None => seq![],
    }
}

spec fn compact_tail(req: AnnounceRequest<'_>) -> Seq<char> {
    seq!['&'] + param(
        "compact"@,
        "1"@,
        seq!['&'] + param(
            "numwant"@,
            ascii_chars(signed_decimal(req.num_want as int)),
            event_tail(req),
        ),
    )
}

spec fn counts_tail(req: AnnounceRequest<'_>) -> Seq<char> {
    seq!['&'] + param(
        "uploaded"@,
        ascii_chars(decimal(req.uploaded as nat)),
        seq!['&'] + param(
            "downloaded"@,
            ascii_chars(decimal(req.downloaded as nat)),
            seq!['&'] + param("left"@, ascii_chars(decimal(req.left as nat)), compact_tail(req)),
        ),
    )
}

spec fn query_of(req: AnnounceRequest<'_>) -> Seq<char> {
    param(
        "info_hash"@,
        percent_all(req.info_hash.0@),
        seq!['&'] + param(
            "peer_id"@,
            percent_reserved(req.peer_id.0@),
            seq!['&'] + param("port"@, ascii_chars(decimal(req.port as nat)), counts_tail(req)),
        ),
    )
}

proof fn lemma_joined(
    head: Seq<char>,
    text: Seq<char>,
    key: Seq<char>,
    value: Seq<char>,
    tail: Seq<char>,
)
    requires
        text == seq!['&'] + key + seq!['='],
    ensures
        head + text + value + tail == head + (seq!['&'] + param(key, value, tail)),
{
    assert(head + text + value + tail =~= head + (seq!['&'] + param(key, value, tail)));
}

#[verifier::spinoff_prover]
#[verifier::rlimit(40)]
proof fn lemma_announce_query(req: AnnounceRequest<'_>)
    ensures
        announce_url(req) == req.tracker_url@.push(separator(req.tracker_url@)) + query_of(req),
{
    reveal_strlit("info_hash=");
    reveal_strlit("info_hash");
    reveal_strlit("&peer_id=");
    reveal_strlit("peer_id");
    reveal_strlit("&port=");
    reveal_strlit("port");
    reveal_strlit("&uploaded=");
    reveal_strlit("uploaded");
    reveal_strlit("&downloaded=");
    reveal_strlit("downloaded");
    reveal_strlit("&left=");
    reveal_strlit("left");
    reveal_strlit("&compact=1&numwant=");
    reveal_strlit("compact");
    reveal_strlit("1");
    reveal_strlit("numwant");
    reveal_strlit("&event=");
    reveal_strlit("event");
    assert("&peer_id="@ =~= seq!['&'] + "peer_id"@ + seq!['=']);
    assert("&port="@ =~= seq!['&'] + "port"@ + seq!['=']);
    assert("&uploaded="@ =~= seq!['&'] + "uploaded"@ + seq!['=']);
    assert("&downloaded="@ =~= seq!['&'] + "downloaded"@ + seq!['=']);
    assert("&left="@ =~= seq!['&'] + "left"@ + seq!['=']);
    assert("&event="@ =~= seq!['&'] + "event"@ + seq!['=']);
    let x0 = req.tracker_url@.push(separator(req.tracker_url@));
    let v1 = percent_all(req.info_hash.0@);
    let v2 = percent_reserved(req.peer_id.0@);
    let v3 = ascii_chars(decimal(req.port as nat));
    let v4 = ascii_chars(decimal(req.uploaded as nat));
    let v5 = ascii_chars(decimal(req.downloaded as nat));
    let v6 = ascii_chars(decimal(req.left as nat));
    let v7 = ascii_chars(signed_decimal(req.num_want as int));
    let x1 = x0 + "info_hash="@ + v1;
    let x2 = x1 + "&peer_id="@ + v2;
    let x3 = x2 + "&port="@ + v3;
    let x4 = x3 + "&uploaded="@ + v4;
    let x5 = x4 + "&downloaded="@ + v5;
    let x6 = x5 + "&left="@ + v6;
    let x7 = x6 + "&compact=1&numwant="@ + v7;
    assert(plain_url(req) == x7);
    let e = event_tail(req);
    assert(announce_url(req) =~= x7 + e) by {
        if let Some(event) = req.event {
            lemma_joined(x7, "&event="@, "event"@, event_name(event), seq![]);
            assert(x7 + "&event="@ + event_name(event) + seq![] =~= x7 + "&event="@ + event_name(
                event,
            ));
        }
    }
    let t7 = compact_tail(req);
    assert(x7 + e =~= x6 + t7) by {
        let n = param("numwant"@, v7, e);
        assert("&compact=1&numwant="@ =~= seq!['&'] + "compact"@ + seq!['='] + "1"@ + seq!['&']
            + "numwant"@ + seq!['=']);
        assert(t7 =~= "&compact=1&numwant="@ + v7 + e);
    }
    let t6 = seq!['&'] + param("left"@, v6, t7);
    lemma_joined(x5, "&left="@, "left"@, v6, t7);
    let t5 = seq!['&'] + param("downloaded"@, v5, t6);
    lemma_joined(x4, "&downloaded="@, "downloaded"@, v5, t6);
    let t4 = seq!['&'] + param("uploaded"@, v4, t5);
    lemma_joined(x3, "&uploaded="@, "uploaded"@, v4, t5);
    let t3 = seq!['&'] + param("port"@, v3, t4);
    lemma_joined(x2, "&port="@, "port"@, v3, t4);
    let t2 = seq!['&'] + param("peer_id"@, v2, t3);
    lemma_joined(x1, "&peer_id="@, "peer_id"@, v2, t3);
    assert(t4 == counts_tail(req));
    assert(announce_url(req) == x1 + t2);
    assert("info_hash="@ =~= "info_hash"@ + seq!['=']);
    assert(x1 + t2 =~= x0 + param("info_hash"@, v1, t2));
}

/// The tracker reads from an announce URL what it is told: the URL begins with
/// the tracker's own, and each parameter has its value.
#[verifier::spinoff_prover]
#[verifier::rlimit(60)]
pub proof fn lemma_url_is_understood(req: AnnounceRequest<'_>)
    ensures
        ({
            let url = announce_url(req);
            let n = req.tracker_url@.len() as int;
            let q = url.skip(n + 1);
            &&& url.take(n) == req.tracker_url@
            &&& url[n] == if req.tracker_url@.contains('?') {
                '&'
            } else {
                '?'
            }
            &&& query_value(q, 0, "info_hash"@) == Some(percent_all(req.info_hash.0@))
            &&& query_value(q, 0, "peer_id"@) == Some(percent_reserved(req.peer_id.0@))
            &&& query_value(q, 0, "port"@) == Some(ascii_chars(decimal(req.port as nat)))
            &&& query_value(q, 0, "uploaded"@) == Some(ascii_chars(decimal(req.uploaded as nat)))
            &&& query_value(q, 0, "downloaded"@) == Some(
                ascii_chars(decimal(req.downloaded as nat)),
            )
            &&& query_value(q, 0, "left"@) == Some(ascii_chars(decimal(req.left as nat)))
            &&& query_value(q, 0, "compact"@) == Some("1"@)
            &&& query_value(q, 0, "numwant"@) == Some(
                ascii_chars(signed_decimal(req.num_want as int)),
            )
            &&& query_value(q, 0, "event"@) == match req.event {
                Some(Event::Started) => Some("started"@),
                Some(Event::Stopped) => Some("stopped"@),
                Some(Event::Completed) => Some("completed"@),
                None => None,
            }
        }),
{
    let n = req.tracker_url@.len() as int;
    lemma_announce_query(req);
    assert(announce_url(req).skip(n + 1) =~= query_of(req));
    assert(announce_url(req).take(n) =~= req.tracker_url@);
    reveal_strlit("info_hash");
    reveal_strlit("peer_id");
    reveal_strlit("port");
    reveal_strlit("uploaded");
    reveal_strlit("downloaded");
    reveal_strlit("left");
    reveal_strlit("compact");
    reveal_strlit("numwant");
    reveal_strlit("event");
    assert("port"@[0] == 'p' && "left"@[0] == 'l');
    assert("peer_id"@[0] == 'p' && "compact"@[0] == 'c' && "numwant"@[0] == 'n');
    lemma_query_read(req, "info_hash"@);
    lemma_query_read(req, "peer_id"@);
    lemma_query_read(req, "port"@);
    lemma_query_read(req, "uploaded"@);
    lemma_query_read(req, "downloaded"@);
    lemma_query_read(req, "left"@);
    lemma_query_read(req, "compact"@);
    lemma_query_read(req, "numwant"@);
    lemma_query_read(req, "event"@);
}

#[verifier::spinoff_prover]
#[verifier::rlimit(60)]
proof fn lemma_query_read(req: AnnounceRequest<'_>, k: Seq<char>)
    ensures
        query_value(query_of(req), 0, k) == if k == "info_hash"@ {
            Some(percent_all(req.info_hash.0@))
        } else if k == "peer_id"@ {
            Some(percent_reserved(req.peer_id.0@))
        } else if k == "port"@ {
            Some(ascii_chars(decimal(req.port as nat)))
        } else if k == "uploaded"@ {
            Some(ascii_chars(decimal(req.uploaded as nat)))
        } else if k == "downloaded"@ {
            Some(ascii_chars(decimal(req.downloaded as nat)))
        } else if k == "left"@ {
            Some(ascii_chars(decimal(req.left as nat)))
        } else if k == "compact"@ {
            Some("1"@)
        } else if k == "numwant"@ {
            Some(ascii_chars(signed_decimal(req.num_want as int)))
        } else if k == "event"@ && req.event is Some {
            Some(event_name(req.event.unwrap()))
        } else {
            None
        },
{
    reveal_strlit("info_hash");
    reveal_strlit("peer_id");
    reveal_strlit("port");
    reveal_strlit("uploaded");
    reveal_strlit("downloaded");
    reveal_strlit("left");
    reveal_strlit("compact");
    reveal_strlit("numwant");
    reveal_strlit("event");
    reveal_strlit("1");
    reveal_strlit("started");
    reveal_strlit("stopped");
    reveal_strlit("completed");
    lemma_percent_is_safe(req.info_hash.0@);
    lemma_percent_is_safe(req.peer_id.0@);
    let v1 = percent_all(req.info_hash.0@);
    let v2 = percent_reserved(req.peer_id.0@);
    assert forall|i: int| 0 <= i < v1.len() implies #[trigger] v1[i] != '&' by {
        assert(is_url_char(v1[i]));
    }
    assert forall|i: int| 0 <= i < v2.len() implies #[trigger] v2[i] != '&' by {
        assert(is_url_char(v2[i]));
    }
    lemma_plain_decimal(req.port as nat);
    lemma_plain_decimal(req.uploaded as nat);
    lemma_plain_decimal(req.downloaded as nat);
    lemma_plain_decimal(req.left as nat);
    lemma_i64_of_signed_decimal(req.num_want as i64);
    lemma_plain_digits(signed_decimal(req.num_want as int));
    let v3 = ascii_chars(decimal(req.port as nat));
    let v4 = ascii_chars(decimal(req.uploaded as nat));
    let v5 = ascii_chars(decimal(req.downloaded as nat));
    let v6 = ascii_chars(decimal(req.left as nat));
    let v7 = ascii_chars(signed_decimal(req.num_want as int));
    let e = event_tail(req);
    if let Some(event) = req.event {
        lemma_query_param("event"@, event_name(event), seq![], k);
        assert(e.drop_first() =~= param("event"@, event_name(event), seq![]));
    }
    let p8 = param("numwant"@, v7, e);
    lemma_query_param("numwant"@, v7, e, k);
    let t8 = seq!['&'] + p8;
    assert(t8.drop_first() =~= p8);
    let p7 = param("compact"@, "1"@, t8);
    lemma_query_param("compact"@, "1"@, t8, k);
    let t7 = seq!['&'] + p7;
    assert(t7.drop_first() =~= p7);
    let p6 = param("left"@, v6, t7);
    lemma_query_param("left"@, v6, t7, k);
    let t6 = seq!['&'] + p6;
    assert(t6.drop_first() =~= p6);
    let p5 = param("downloaded"@, v5, t6);
    lemma_query_param("downloaded"@, v5, t6, k);
    let t5 = seq!['&'] + p5;
    assert(t5.drop_first() =~= p5);
    let p4 = param("uploaded"@, v4, t5);
    lemma_query_param("uploaded"@, v4, t5, k);
    let t4 = seq!['&'] + p4;
    assert(t4.drop_first() =~= p4);
    let p3 = param("port"@, v3, t4);
    lemma_query_param("port"@, v3, t4, k);
    let t3 = seq!['&'] + p3;
    assert(t3.drop_first() =~= p3);
    let p2 = param("peer_id"@, v2, t3);
    lemma_query_param("peer_id"@, v2, t3, k);
    let t2 = seq!['&'] + p2;
    assert(t2.drop_first() =~= p2);
    lemma_query_param("info_hash"@, v1, t2, k);
    assert(query_of(req) == param("info_hash"@, v1, t2));
}

} // verus!

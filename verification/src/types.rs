//! Core value types shared across the library.

use vstd::prelude::*;

use crate::octets::{be16, from_be16, lemma_be_round_trip, same_bytes, u16_be};
use crate::text::{hex_digit_value, hex_digit, hex_encode, hex_text};

verus! {

/// 20-byte SHA-1 info hash identifying a torrent.
#[derive(Debug, Clone, Copy, PartialEq, Eq, Hash)]
pub struct InfoHash(pub [u8; 20]);

/// 20-byte Azureus-style peer ID in the format `-SD0100-XXXXXXXXXXXX`.
#[derive(Debug, Clone, Copy, PartialEq, Eq)]
pub struct PeerId(pub [u8; 20]);

/// An IP address, as its octets in network order.
#[derive(Debug, Clone, Copy, PartialEq, Eq, Hash, PartialOrd, Ord)]
pub enum IpAddr {
    V4([u8; 4]),
    V6([u8; 16]),
}

/// A remote peer's network address.
#[derive(Debug, Clone, Copy, PartialEq, Eq, Hash, PartialOrd, Ord)]
pub struct PeerAddr {
    pub ip: IpAddr,
    pub port: u16,
}

/// The content of a [`PeerAddr`]: the octets of the address, 4 or 16 of them, and the port.
#[verifier::ext_equal]
pub struct Endpoint {
    pub ip: Seq<u8>,
    pub port: u16,
}

impl IpAddr {
    /// The octets of the address.
    pub open spec fn octets(self) -> Seq<u8> {
        match self {
            IpAddr::V4(o) => o@,
            IpAddr::V6(o) => o@,
        }
    }
}

impl View for PeerAddr {
    type V = Endpoint;

    open spec fn view(&self) -> Endpoint {
        Endpoint { ip: self.ip.octets(), port: self.port }
    }
}

/// Whether two addresses are the same.
pub fn same_addr(a: &PeerAddr, b: &PeerAddr) -> (r: bool)
    ensures
        r == (a@ == b@),
{
    if a.port != b.port {
        return false;
    }
    match a.ip {
        IpAddr::V4(x) => match b.ip {
            IpAddr::V4(y) => same_bytes(x.as_slice(), y.as_slice()),
            IpAddr::V6(y) => {
                assert(x@.len() != y@.len());
                false
            },
        },
        IpAddr::V6(x) => match b.ip {
            IpAddr::V4(y) => {
                assert(x@.len() != y@.len());
                false
            },
            IpAddr::V6(y) => same_bytes(x.as_slice(), y.as_slice()),
        },
    }
}

/// The contents of a sequence of addresses.
pub open spec fn endpoints(s: Seq<PeerAddr>) -> Seq<Endpoint> {
    s.map_values(|a: PeerAddr| a@)
}

/// The address and port in 6 bytes: the octets, and the port in network order.
pub open spec fn compact4(s: Seq<u8>) -> Endpoint {
    Endpoint { ip: s.take(4), port: from_be16(s, 4) }
}

/// The address and port in 18 bytes: the octets, and the port in network order.
pub open spec fn compact6(s: Seq<u8>) -> Endpoint {
    Endpoint { ip: s.take(16), port: from_be16(s, 16) }
}

/// The addresses in a string of 6-byte entries; an incomplete one is left out.
pub open spec fn compact4_list(raw: Seq<u8>) -> Seq<Endpoint> {
    Seq::new(raw.len() / 6, |i: int| compact4(raw.subrange(6 * i, 6 * i + 6)))
}

/// The addresses in a string of 18-byte entries; an incomplete one is left out.
pub open spec fn compact6_list(raw: Seq<u8>) -> Seq<Endpoint> {
    Seq::new(raw.len() / 18, |i: int| compact6(raw.subrange(18 * i, 18 * i + 18)))
}

/// Read a 6-byte entry.
pub fn read_compact4(s: &[u8], at: usize) -> (a: PeerAddr)
    requires
        at + 6 <= s.len(),
    ensures
        a@ == compact4(s@.subrange(at as int, at + 6)),
        a.ip is V4,
{
    let octets: [u8; 4] = [s[at], s[at + 1], s[at + 2], s[at + 3]];
    let a = PeerAddr { ip: IpAddr::V4(octets), port: u16_be(s, at + 4) };
    let ghost e = s@.subrange(at as int, at + 6);
    assert(octets@ =~= e.take(4));
    a
}

/// Read an 18-byte entry.
pub fn read_compact6(s: &[u8], at: usize) -> (a: PeerAddr)
    requires
        at + 18 <= s.len(),
    ensures
        a@ == compact6(s@.subrange(at as int, at + 18)),
        a.ip is V6,
{
    let mut octets: [u8; 16] = [0u8; 16];
    let mut i: usize = 0;
    while i < 16
        invariant
            i <= 16,
            at + 18 <= s.len(),
            forall|k: int| 0 <= k < i ==> #[trigger] octets@[k] == s@[at + k],
        decreases 16 - i,
    {
        octets[i] = s[at + i];
        i = i + 1;
    }
    let a = PeerAddr { ip: IpAddr::V6(octets), port: u16_be(s, at + 16) };
    let ghost e = s@.subrange(at as int, at + 18);
    assert(octets@ =~= e.take(16));
    a
}

/// Append the addresses in a string of 6-byte entries.
pub fn append_compact4(out: &mut Vec<PeerAddr>, raw: &[u8])
    ensures
        endpoints(final(out)@) == endpoints(old(out)@) + compact4_list(raw@),
{
    let n: usize = raw.len() / 6;
    let mut i: usize = 0;
    assert(endpoints(out@) =~= endpoints(old(out)@) + compact4_list(raw@).take(0));
    while i < n
        invariant
            i <= n == raw.len() / 6,
            endpoints(out@) == endpoints(old(out)@) + compact4_list(raw@).take(i as int),
        decreases n - i,
    {
        let ghost before = out@;
        out.push(read_compact4(raw, 6 * i));
        i = i + 1;
        assert(endpoints(out@) =~= endpoints(before).push(compact4_list(raw@)[i - 1]));
        assert(endpoints(out@) =~= endpoints(old(out)@) + compact4_list(raw@).take(i as int));
    }
    assert(compact4_list(raw@).take(i as int) =~= compact4_list(raw@));
}

/// Append the addresses in a string of 18-byte entries.
pub fn append_compact6(out: &mut Vec<PeerAddr>, raw: &[u8])
    ensures
        endpoints(final(out)@) == endpoints(old(out)@) + compact6_list(raw@),
{
    let n: usize = raw.len() / 18;
    let mut i: usize = 0;
    assert(endpoints(out@) =~= endpoints(old(out)@) + compact6_list(raw@).take(0));
    while i < n
        invariant
            i <= n == raw.len() / 18,
            endpoints(out@) == endpoints(old(out)@) + compact6_list(raw@).take(i as int),
        decreases n - i,
    {
        let ghost before = out@;
        out.push(read_compact6(raw, 18 * i));
        i = i + 1;
        assert(endpoints(out@) =~= endpoints(before).push(compact6_list(raw@)[i - 1]));
        assert(endpoints(out@) =~= endpoints(old(out)@) + compact6_list(raw@).take(i as int));
    }
    assert(compact6_list(raw@).take(i as int) =~= compact6_list(raw@));
}

/// The percent-encoding of one byte: `%` and two lower-case hexadecimal digits.
pub open spec fn percent(b: u8) -> Seq<char> {
    seq!['%', hex_digit((b / 16) as u8) as char, hex_digit((b % 16) as u8) as char]
}

/// Every byte percent-encoded.
pub open spec fn percent_all(s: Seq<u8>) -> Seq<char>
    decreases s.len(),
{
    if s.len() == 0 {
        seq![]
    } else {
        percent_all(s.drop_last()) + percent(s.last())
    }
}

/// The bytes that may stand in a URL as they are.
pub open spec fn is_unreserved(b: u8) -> bool {
    ||| 0x30 <= b <= 0x39
    ||| 0x41 <= b <= 0x5a
    ||| 0x61 <= b <= 0x7a
    ||| b == 0x2d
    ||| b == 0x2e
    ||| b == 0x5f
    ||| b == 0x7e
}

/// Every byte percent-encoded but for the unreserved ones.
pub open spec fn percent_reserved(s: Seq<u8>) -> Seq<char>
    decreases s.len(),
{
    if s.len() == 0 {
        seq![]
    } else if is_unreserved(s.last()) {
        percent_reserved(s.drop_last()).push(s.last() as char)
    } else {
        percent_reserved(s.drop_last()) + percent(s.last())
    }
}

fn digit_char(n: u8) -> (c: char)
    requires
        n < 16,
    ensures
        c == hex_digit(n) as char,
{
    if n < 10 {
        (0x30 + n) as u8 as char
    } else {
        (0x61 + (n - 10)) as u8 as char
    }
}

fn push_percent(out: &mut String, b: u8)
    ensures
        final(out)@ == old(out)@ + percent(b),
{
    out.push('%');
    out.push(digit_char(b / 16));
    out.push(digit_char(b % 16));
    assert(out@ =~= old(out)@ + percent(b));
}

/// Percent-encode the bytes of a text for use as a query value: all but the
/// unreserved ones.
pub fn push_percent_reserved(out: &mut String, s: &[u8])
    ensures
        final(out)@ == old(out)@ + percent_reserved(s@),
{
    let mut i: usize = 0;
    while i < s.len()
        invariant
            i <= s.len(),
            out@ == old(out)@ + percent_reserved(s@.take(i as int)),
        decreases s.len() - i,
    {
        let b = s[i];
        proof {
            assert(s@.take(i + 1).drop_last() =~= s@.take(i as int));
        }
        let ghost before = out@;
        if (b >= 0x30 && b <= 0x39) || (b >= 0x41 && b <= 0x5a) || (b >= 0x61 && b <= 0x7a) || b
            == 0x2d || b == 0x2e || b == 0x5f || b == 0x7e {
            out.push(b as char);
        } else {
            push_percent(out, b);
        }
        assert(out@ =~= old(out)@ + percent_reserved(s@.take(i + 1)));
        i = i + 1;
    }
    assert(s@.take(i as int) =~= s@);
}

impl InfoHash {
    /// Return the raw 20 bytes of the info hash.
    pub fn as_bytes(&self) -> (r: &[u8; 20])
        ensures
            *r == self.0,
    {
        &self.0
    }

    /// Percent-encode each byte for use in tracker announce URLs.
    pub fn url_encode(&self) -> (r: String)
        ensures
            r@ == percent_all(self.0@),
    {
        let mut s = String::new();
        let mut i: usize = 0;
        assert(self.0@.take(0) =~= seq![]);
        while i < 20
            invariant
                i <= 20,
                s@ == percent_all(self.0@.take(i as int)),
            decreases 20 - i,
        {
            push_percent(&mut s, self.0[i]);
            assert(self.0@.take(i + 1).drop_last() =~= self.0@.take(i as int));
            i = i + 1;
        }
        assert(self.0@.take(20) =~= self.0@);
        s
    }

    /// Return the info hash as a lowercase hex string.
    pub fn to_hex(&self) -> (r: String)
        ensures
            r@ == hex_text(self.0@),
    {
        hex_encode(self.0.as_slice())
    }

    /// The text of the info hash: its lowercase hex string.
    pub fn to_string(&self) -> (r: String)
        ensures
            r@ == hex_text(self.0@),
    {
        self.to_hex()
    }
}

impl PeerId {
    /// Return the raw 20 bytes of the peer ID.
    pub fn as_bytes(&self) -> (r: &[u8; 20])
        ensures
            *r == self.0,
    {
        &self.0
    }

    /// Percent-encode for tracker URLs (unreserved ASCII chars pass through).
    pub fn url_encode(&self) -> (r: String)
        ensures
            r@ == percent_reserved(self.0@),
    {
        let mut s = String::new();
        push_percent_reserved(&mut s, self.0.as_slice());
        assert(s@ =~= percent_reserved(self.0@));
        s
    }
}

// Laws

/// The compact form of an address: its octets, and the port in network order.
pub open spec fn compact_bytes(e: Endpoint) -> Seq<u8> {
    e.ip + be16(e.port)
}

/// The compact forms of addresses, one after the other.
pub open spec fn compact_all(list: Seq<Endpoint>) -> Seq<u8>
    decreases list.len(),
{
    if list.len() == 0 {
        seq![]
    } else {
        compact_all(list.drop_last()) + compact_bytes(list.last())
    }
}

proof fn lemma_compact_parts(list: Seq<Endpoint>, octets: int, i: int)
    requires
        octets >= 0,
        forall|j: int| 0 <= j < list.len() ==> (#[trigger] list[j]).ip.len() == octets,
        0 <= i < list.len(),
    ensures
        compact_all(list).len() == (octets + 2) * list.len(),
        (octets + 2) * i + octets + 2 <= compact_all(list).len(),
        0 <= (octets + 2) * i,
        compact_all(list).subrange((octets + 2) * i, (octets + 2) * i + octets + 2)
            == compact_bytes(list[i]),
    decreases list.len(),
{
    let head = list.drop_last();
    let n = list.len() as int;
    let w = octets + 2;
    assert(w * (n - 1) + w == w * n && 0 <= w * i && w * i + w <= w * n) by (nonlinear_arith)
        requires
            0 <= i < n,
            w >= 2,
    ;
    assert forall|j: int| 0 <= j < head.len() implies (#[trigger] head[j]).ip.len() == octets by {
        assert(list[j].ip.len() == octets);
    }
    assert(list[n - 1].ip.len() == octets);
    if n == 1 {
        assert(compact_all(head) =~= seq![]);
        assert(w * (n - 1) == 0 && w * i == 0) by (nonlinear_arith)
            requires
                n == 1,
                i == 0,
        ;
        assert(compact_all(list).subrange(w * i, w * i + w) =~= compact_bytes(list[i]));
    } else {
        lemma_compact_parts(head, octets, 0);
        if i < n - 1 {
            lemma_compact_parts(head, octets, i);
            assert(compact_all(list).subrange(w * i, w * i + w) =~= compact_all(head).subrange(
                w * i,
                w * i + w,
            ));
        } else {
            assert(compact_all(list).subrange(w * i, w * i + w) =~= compact_bytes(list[i]));
        }
    }
}

/// The compact form of IPv4 addresses is read back as those addresses.
pub proof fn lemma_compact4_round_trip(list: Seq<Endpoint>)
    requires
        forall|j: int| 0 <= j < list.len() ==> (#[trigger] list[j]).ip.len() == 4,
    ensures
        compact_all(list).len() == 6 * list.len(),
        compact4_list(compact_all(list)) == list,
        list.len() == 1 ==> compact4(compact_bytes(list[0])) == list[0],
{
    let raw = compact_all(list);
    if list.len() > 0 {
        lemma_compact_parts(list, 4, 0);
    }
    assert forall|i: int| 0 <= i < list.len() implies #[trigger] compact4_list(raw)[i]
        == list[i] by {
        lemma_compact_parts(list, 4, i);
        lemma_compact_entry(list[i], 4);
    }
    assert(compact4_list(raw) =~= list);
    if list.len() == 1 {
        lemma_compact_entry(list[0], 4);
    }
}

/// The compact form of IPv6 addresses is read back as those addresses.
pub proof fn lemma_compact6_round_trip(list: Seq<Endpoint>)
    requires
        forall|j: int| 0 <= j < list.len() ==> (#[trigger] list[j]).ip.len() == 16,
    ensures
        compact_all(list).len() == 18 * list.len(),
        compact6_list(compact_all(list)) == list,
{
    let raw = compact_all(list);
    if list.len() > 0 {
        lemma_compact_parts(list, 16, 0);
    }
    assert forall|i: int| 0 <= i < list.len() implies #[trigger] compact6_list(raw)[i]
        == list[i] by {
        lemma_compact_parts(list, 16, i);
        lemma_compact_entry(list[i], 16);
    }
    assert(compact6_list(raw) =~= list);
}

/// One compact address is read back.
pub proof fn lemma_compact_entry(e: Endpoint, octets: int)
    requires
        e.ip.len() == octets,
        octets == 4 || octets == 16,
    ensures
        compact_bytes(e).len() == octets + 2,
        octets == 4 ==> compact4(compact_bytes(e)) == e,
        octets == 16 ==> compact6(compact_bytes(e)) == e,
{
    let raw = compact_bytes(e);
    assert(raw.take(octets) =~= e.ip);
    assert(raw.subrange(octets, octets + 2) =~= be16(e.port));
    lemma_be_round_trip(raw, octets);
}

/// Whether a character is an unreserved one or a percent sign.
pub open spec fn is_url_char(c: char) -> bool {
    ||| '0' <= c <= '9'
    ||| 'a' <= c <= 'z'
    ||| 'A' <= c <= 'Z'
    ||| c == '-'
    ||| c == '.'
    ||| c == '_'
    ||| c == '~'
    ||| c == '%'
}

/// What is percent-encoded holds nothing that has a meaning of its own in a
/// URL.
pub proof fn lemma_percent_is_safe(s: Seq<u8>)
    ensures
        forall|i: int|
            0 <= i < percent_reserved(s).len() ==> is_url_char(#[trigger] percent_reserved(s)[i]),
        forall|i: int| 0 <= i < percent_all(s).len() ==> is_url_char(#[trigger] percent_all(s)[i]),
        percent_all(s).len() == 3 * s.len(),
    decreases s.len(),
{
    if s.len() > 0 {
        lemma_percent_is_safe(s.drop_last());
        let head = percent_reserved(s.drop_last());
        let b = s.last();
        assert forall|i: int| 0 <= i < percent_reserved(s).len() implies is_url_char(
            #[trigger] percent_reserved(s)[i],
        ) by {
            if i < head.len() {
                assert(percent_reserved(s)[i] == head[i]);
            } else if is_unreserved(b) {
                assert(percent_reserved(s)[i] == b as char);
            } else {
                assert(percent_reserved(s)[i] == percent(b)[i - head.len()]);
            }
        }
    }
}

/// Every byte stands as a percent sign and the two digits of its value.
pub proof fn lemma_percent_digits(s: Seq<u8>, i: int)
    requires
        0 <= i < s.len(),
    ensures
        percent_all(s).len() == 3 * s.len(),
        percent_all(s)[3 * i] == '%',
        16 * hex_digit_value(percent_all(s)[3 * i + 1] as u8) + hex_digit_value(
            percent_all(s)[3 * i + 2] as u8,
        ) == s[i],
    decreases s.len(),
{
    lemma_percent_is_safe(s);
    lemma_percent_is_safe(s.drop_last());
    if i < s.len() - 1 {
        lemma_percent_digits(s.drop_last(), i);
    }
}

/// The unreserved characters stand in a URL as they are.
pub proof fn lemma_unreserved_stays(s: Seq<u8>)
    requires
        forall|i: int| 0 <= i < s.len() ==> is_unreserved(#[trigger] s[i]),
    ensures
        percent_reserved(s) == s.map_values(|b: u8| b as char),
    decreases s.len(),
{
    if s.len() > 0 {
        assert(is_unreserved(s[s.len() - 1]));
        assert forall|i: int| 0 <= i < s.drop_last().len() implies is_unreserved(
            #[trigger] s.drop_last()[i],
        ) by {
            assert(is_unreserved(s[i]));
        }
        lemma_unreserved_stays(s.drop_last());
    }
    assert(percent_reserved(s) =~= s.map_values(|b: u8| b as char));
}

/// Bytes that are too few for another address are left out.
pub proof fn lemma_compact_rest(raw: Seq<u8>, rest: Seq<u8>)
    ensures
        raw.len() % 6 == 0 && rest.len() < 6 ==> compact4_list(raw + rest) == compact4_list(raw),
        raw.len() % 18 == 0 && rest.len() < 18 ==> compact6_list(raw + rest) == compact6_list(raw),
{
    let all = raw + rest;
    if raw.len() % 6 == 0 && rest.len() < 6 {
        assert(all.len() / 6 == raw.len() / 6);
        assert forall|i: int| 0 <= i < raw.len() / 6 implies #[trigger] compact4_list(all)[i]
            == compact4_list(raw)[i] by {
            assert(all.subrange(6 * i, 6 * i + 6) =~= raw.subrange(6 * i, 6 * i + 6));
        }
        assert(compact4_list(all) =~= compact4_list(raw));
    }
    if raw.len() % 18 == 0 && rest.len() < 18 {
        assert(all.len() / 18 == raw.len() / 18);
        assert forall|i: int| 0 <= i < raw.len() / 18 implies #[trigger] compact6_list(all)[i]
            == compact6_list(raw)[i] by {
            assert(all.subrange(18 * i, 18 * i + 18) =~= raw.subrange(18 * i, 18 * i + 18));
        }
        assert(compact6_list(all) =~= compact6_list(raw));
    }
}

} // verus!

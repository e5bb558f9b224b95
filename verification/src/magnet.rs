//! Magnet link parser (BEP-9 `magnet:` URI scheme).
//!
//! A magnet link contains:
//! - `xt=urn:btih:<info_hash>` — 40-hex or 32-base32 info hash (required)
//! - `dn=<name>`               — display name (optional)
//! - `tr=<url>`                — tracker URLs (may repeat)
//! - `ws=<url>`                — web seed URLs (ignored for now)

use vstd::arithmetic::div_mod::{
    lemma_div_denominator, lemma_fundamental_div_mod, lemma_fundamental_div_mod_converse,
};
use vstd::arithmetic::power2::{lemma_pow2_adds, lemma_pow2_pos, lemma2_to64, pow2};
use vstd::prelude::*;
use vstd::utf8::{
    encode_utf8, encode_utf8_decode_utf8, encode_utf8_valid_utf8, is_ascii_chars,
    is_ascii_chars_encode_utf8,
};

use crate::error::{Error, MagnetError, Result};
use crate::octets::array20;
use crate::text::{
    after_prefix, ascii_lower_text, ascii_upper_text, chars_of, find_char, find_char_from,
    has_prefix, hex_bytes, hex_decode, hex_digit, hex_digit_value, hex_error, hex_text, hex_value,
    is_hex, is_hex_digit, lemma_ascii_case, lemma_has_prefix, lemma_hex_case, lemma_hex_round_trip,
    opt_text,
    same_str, string_from_utf8_lossy, string_of, texts, to_uppercase, upper_text, utf8_chars,
    utf8_lossy, PLUS,
};
use crate::types::{is_unreserved, percent, percent_all, percent_reserved, InfoHash};

verus! {

pub const PERCENT: u8 = 0x25;

pub const SPACE: u8 = 0x20;

// Whitespace

/// The characters with the Unicode property White_Space.
pub open spec fn is_whitespace(c: char) -> bool {
    let n = c as u32;
    ||| 0x09 <= n <= 0x0d
    ||| n == 0x20
    ||| n == 0x85
    ||| n == 0xa0
    ||| n == 0x1680
    ||| 0x2000 <= n <= 0x200a
    ||| n == 0x2028
    ||| n == 0x2029
    ||| n == 0x202f
    ||| n == 0x205f
    ||| n == 0x3000
}

pub open spec fn trim_start(s: Seq<char>) -> Seq<char>
    decreases s.len(),
{
    if s.len() > 0 && is_whitespace(s[0]) {
        trim_start(s.drop_first())
    } else {
        s
    }
}

pub open spec fn trim_end(s: Seq<char>) -> Seq<char>
    decreases s.len(),
{
    if s.len() > 0 && is_whitespace(s.last()) {
        trim_end(s.drop_last())
    } else {
        s
    }
}

/// A text without the whitespace at its start and end.
pub open spec fn trimmed(s: Seq<char>) -> Seq<char> {
    trim_end(trim_start(s))
}

fn whitespace(c: char) -> (r: bool)
    ensures
        r == is_whitespace(c),
{
    let n: u32 = c as u32;
    (n >= 0x09 && n <= 0x0d) || n == 0x20 || n == 0x85 || n == 0xa0 || n == 0x1680 || (n >= 0x2000
        && n <= 0x200a) || n == 0x2028 || n == 0x2029 || n == 0x202f || n == 0x205f || n == 0x3000
}

/// The range of a text that is left when whitespace is taken off its ends.
fn trim(s: &Vec<char>) -> (r: (usize, usize))
    ensures
        r.0 <= r.1 <= s.len(),
        s@.subrange(r.0 as int, r.1 as int) == trimmed(s@),
{
    let mut lo: usize = 0;
    assert(s@.skip(0) =~= s@);
    while lo < s.len() && whitespace(s[lo])
        invariant
            lo <= s.len(),
            trim_start(s@) == trim_start(s@.skip(lo as int)),
        decreases s.len() - lo,
    {
        assert(s@.skip(lo as int).drop_first() =~= s@.skip(lo + 1));
        lo = lo + 1;
    }
    assert(trim_start(s@) == s@.skip(lo as int));
    let mut hi: usize = s.len();
    assert(s@.subrange(lo as int, hi as int) =~= s@.skip(lo as int));
    while hi > lo && whitespace(s[hi - 1])
        invariant
            lo <= hi <= s.len(),
            trimmed(s@) == trim_end(s@.subrange(lo as int, hi as int)),
        decreases hi - lo,
    {
        assert(s@.subrange(lo as int, hi as int).drop_last() =~= s@.subrange(lo as int, hi - 1));
        hi = hi - 1;
    }
    (lo, hi)
}

// Percent-decoding

/// The byte that the two bytes after a percent sign stand for, if they are
/// hexadecimal digits.
pub open spec fn escape_value(a: u8, b: u8) -> Option<u8> {
    if is_hex_digit(a) && is_hex_digit(b) {
        Some((hex_digit_value(a) * 16 + hex_digit_value(b)) as u8)
    } else {
        None
    }
}

/// Percent-decoding from index `i` on; a plus sign stands for a space, and a
/// percent sign that starts no escape for itself.
pub open spec fn percent_decoded(s: Seq<u8>, i: int) -> Seq<u8>
    decreases s.len() - i,
{
    if i < 0 || i >= s.len() {
        seq![]
    } else if s[i] == PERCENT && i + 2 < s.len() && escape_value(s[i + 1], s[i + 2]) is Some {
        seq![escape_value(s[i + 1], s[i + 2]).unwrap()] + percent_decoded(s, i + 3)
    } else if s[i] == PLUS {
        seq![SPACE] + percent_decoded(s, i + 1)
    } else {
        seq![s[i]] + percent_decoded(s, i + 1)
    }
}

/// The text that a percent-encoded text stands for; what is not UTF-8 in it is
/// replaced.
pub open spec fn decoded_text(s: Seq<char>) -> Seq<char> {
    let bytes = percent_decoded(encode_utf8(s), 0);
    match utf8_chars(bytes) {
        Some(chars) => chars,
        None => utf8_lossy(bytes),
    }
}

fn escape(a: u8, b: u8) -> (r: Option<u8>)
    ensures
        r == escape_value(a, b),
{
    match (hex_value(a), hex_value(b)) {
        (Some(hi), Some(lo)) => Some(hi * 16 + lo),
        _ => None,
    }
}

fn percent_decode_bytes(s: &[u8]) -> (out: Vec<u8>)
    ensures
        out@ == percent_decoded(s@, 0),
{
    let mut out: Vec<u8> = Vec::new();
    let mut i: usize = 0;
    while i < s.len()
        invariant
            i <= s.len(),
            percent_decoded(s@, 0) == out@ + percent_decoded(s@, i as int),
        decreases s.len() - i,
    {
        let ghost before = out@;
        let ghost at = i as int;
        let code: Option<u8> = if s[i] == PERCENT && s.len() - i > 2 {
            escape(s[i + 1], s[i + 2])
        } else {
            None
        };
        match code {
            Some(b) => {
                out.push(b);
                i = i + 3;
            },
            None => {
                if s[i] == PLUS {
                    out.push(SPACE);
                } else {
                    out.push(s[i]);
                }
                i = i + 1;
            },
        }
        assert(before + percent_decoded(s@, at) =~= out@ + percent_decoded(s@, i as int));
    }
    assert(out@ + percent_decoded(s@, i as int) =~= out@);
    out
}

/// Simple percent-decoding (%XX → byte).
fn percent_decode(s: &str) -> (r: String)
    ensures
        r@ == decoded_text(s@),
{
    let bytes = percent_decode_bytes(s.as_bytes());
    string_from_utf8_lossy(bytes.as_slice())
}

// Base32

/// Whether a byte belongs to the RFC 4648 base32 alphabet: A-Z and 2-7.
pub open spec fn is_base32(b: u8) -> bool {
    0x41 <= b <= 0x5a || 0x32 <= b <= 0x37
}

/// The value of a base32 digit.
pub open spec fn base32_digit(b: u8) -> nat {
    if b >= 0x41 {
        (b - 0x41) as nat
    } else {
        (b - 0x32 + 26) as nat
    }
}

/// The number that a string of base32 digits stands for.
pub open spec fn base32_value(s: Seq<u8>) -> nat
    decreases s.len(),
{
    if s.len() == 0 {
        0
    } else {
        base32_value(s.drop_last()) * 32 + base32_digit(s.last())
    }
}

/// The whole bytes in the bits of a string of base32 digits, high bits first.
pub open spec fn base32_bytes(s: Seq<u8>) -> Seq<u8> {
    Seq::new(
        5 * s.len() / 8,
        |k: int| (base32_value(s) / pow2((5 * s.len() - 8 * (k + 1)) as nat) % 256) as u8,
    )
}

/// What a base32 string decodes to, or `None` if it holds a byte that is no digit.
pub open spec fn base32_of(s: Seq<u8>) -> Option<Seq<u8>> {
    if forall|i: int| 0 <= i < s.len() ==> is_base32(#[trigger] s[i]) {
        Some(base32_bytes(s))
    } else {
        None
    }
}

/// One more digit leaves the bytes that are already whole as they are.
proof fn lemma_base32_keep(v: nat, d: nat, e: nat)
    requires
        d < 32,
    ensures
        (v * 32 + d) / pow2(e + 5) == v / pow2(e),
{
    lemma2_to64();
    lemma_pow2_adds(5, e);
    lemma_pow2_pos(e);
    lemma_div_denominator((v * 32 + d) as int, 32, pow2(e) as int);
    assert((v * 32 + d) / 32 == v);
}

/// The next whole byte and the bits that are left, from those that were left before.
proof fn lemma_base32_next(v: nat, d: nat, bits: nat, rest: nat, t: nat)
    requires
        d < 32,
        bits < 8,
        rest == v % pow2(bits),
        t == rest * 32 + d,
    ensures
        t < 32 * pow2(bits),
        bits < 3 ==> (v * 32 + d) % pow2(bits + 5) == t,
        bits >= 3 ==> (v * 32 + d) / pow2((bits - 3) as nat) % 256 == t / pow2((bits - 3) as nat),
        bits >= 3 ==> (v * 32 + d) % pow2((bits - 3) as nat) == t % pow2((bits - 3) as nat),
{
    lemma2_to64();
    lemma_pow2_pos(bits);
    let p = pow2(bits) as int;
    let q = v as int / p;
    lemma_fundamental_div_mod(v as int, p);
    assert(v == p * q + rest);
    lemma_pow2_adds(5, bits);
    let w = (v * 32 + d) as int;
    assert(w == q * (32 * p) + t) by (nonlinear_arith)
        requires
            v == p * q + rest,
            t == rest * 32 + d,
            w == v * 32 + d,
    ;
    assert(0 <= t < 32 * p);
    lemma_fundamental_div_mod_converse(w, 32 * p, q, t as int);
    if bits >= 3 {
        let b = (bits - 3) as nat;
        lemma_pow2_pos(b);
        lemma_pow2_adds(3, b);
        let c = pow2(b) as int;
        assert(p == 8 * c);
        assert(32 * p == 256 * c);
        let a = t as int / c;
        let m = t as int % c;
        lemma_fundamental_div_mod(t as int, c);
        assert(w == (q * 256 + a) * c + m) by (nonlinear_arith)
            requires
                w == q * (32 * p) + t,
                32 * p == 256 * c,
                t == c * a + m,
        ;
        lemma_fundamental_div_mod_converse(w, c, q * 256 + a, m);
        assert(a < 256) by (nonlinear_arith)
            requires
                t == c * a + m,
                0 <= m,
                t < 256 * c,
                c > 0,
        ;
        assert(0 <= a) by (nonlinear_arith)
            requires
                t == c * a + m,
                0 <= t,
                m < c,
                c > 0,
        ;
        lemma_fundamental_div_mod_converse(q * 256 + a, 256, q, a);
    }
}

fn base32_digit_of(b: u8) -> (r: Option<u32>)
    ensures
        r == if is_base32(b) {
            Some(base32_digit(b) as u32)
        } else {
            None
        },
{
    if b >= 0x41 && b <= 0x5a {
        Some((b - 0x41) as u32)
    } else if b >= 0x32 && b <= 0x37 {
        Some((b - 0x32) as u32 + 26)
    } else {
        None
    }
}

/// 2 to a power below 8.
fn small_pow2(e: u32) -> (r: u32)
    requires
        e < 8,
    ensures
        r == pow2(e as nat),
{
    proof {
        lemma2_to64();
    }
    if e == 0 {
        1
    } else if e == 1 {
        2
    } else if e == 2 {
        4
    } else if e == 3 {
        8
    } else if e == 4 {
        16
    } else if e == 5 {
        32
    } else if e == 6 {
        64
    } else {
        128
    }
}

/// RFC 4648 base32 decoder (A-Z + 2-7, no padding required).
fn base32_decode(s: &[u8]) -> (r: Option<Vec<u8>>)
    ensures
        match base32_of(s@) {
            Some(b) => r matches Some(v) && v@ == b,
            None => r is None,
        },
{
    let mut rest: u32 = 0;
    let mut bits: u32 = 0;
    let mut out: Vec<u8> = Vec::new();
    let mut i: usize = 0;
    proof {
        lemma2_to64();
        assert(s@.take(0) =~= seq![]);
        assert(base32_bytes(seq![]) =~= seq![]);
    }
    while i < s.len()
        invariant
            i <= s.len(),
            forall|j: int| 0 <= j < i ==> is_base32(#[trigger] s@[j]),
            out@ == base32_bytes(s@.take(i as int)),
            bits < 8,
            bits == 5 * i - 8 * out@.len(),
            rest == base32_value(s@.take(i as int)) % pow2(bits as nat),
            rest < 256,
        decreases s.len() - i,
    {
        let ghost seen = s@.take(i as int);
        let ghost more = s@.take(i + 1);
        let ghost before = out@;
        match base32_digit_of(s[i]) {
            None => {
                assert(!is_base32(s@[i as int]));
                return None;
            },
            Some(d) => {
                let ghost v = base32_value(seen);
                proof {
                    assert(more.drop_last() =~= seen);
                    assert(base32_value(more) == v * 32 + d);
                    lemma_base32_next(
                        v,
                        d as nat,
                        bits as nat,
                        rest as nat,
                        (rest * 32 + d) as nat,
                    );
                    lemma_pow2_pos(bits as nat);
                    lemma2_to64();
                    assert forall|k: int| 0 <= k < before.len() implies #[trigger] base32_bytes(
                        more,
                    )[k] == before[k] by {
                        lemma_base32_keep(v, d as nat, (5 * i - 8 * (k + 1)) as nat);
                    }
                }
                let t: u32 = rest * 32 + d;
                if bits >= 3 {
                    let p: u32 = small_pow2(bits - 3);
                    proof {
                        lemma_pow2_pos((bits - 3) as nat);
                        assert(t / p < 256);
                    }
                    out.push((t / p) as u8);
                    rest = t % p;
                    bits = bits - 3;
                    assert(out@ =~= base32_bytes(more));
                } else {
                    rest = t;
                    bits = bits + 5;
                    assert(out@ =~= base32_bytes(more));
                }
                i = i + 1;
            },
        }
    }
    assert(s@.take(i as int) =~= s@);
    Some(out)
}

// Info hashes

/// The info hash that a text of 40 hexadecimal or 32 base32 digits stands for.
pub open spec fn hash_of(text: Seq<char>) -> std::result::Result<Seq<u8>, MagnetError<Seq<char>>> {
    let bytes = encode_utf8(text);
    if bytes.len() == 40 {
        if is_hex(bytes) {
            Ok(hex_bytes(bytes))
        } else {
            Err(MagnetError::InvalidHex { cause: hex_error(bytes) })
        }
    } else if bytes.len() == 32 {
        hash_of_base32(upper_text(text))
    } else {
        Err(MagnetError::HashLength { len: bytes.len() as usize })
    }
}

/// The info hash that upper-case base32 digits stand for.
pub open spec fn hash_of_base32(text: Seq<char>) -> std::result::Result<Seq<u8>, MagnetError<Seq<char>>> {
    match base32_of(encode_utf8(text)) {
        None => Err(MagnetError::InvalidBase32),
        Some(b) => if b.len() == 20 {
            Ok(b)
        } else {
            Err(MagnetError::HashNotTwentyBytes)
        },
    }
}

/// Read an info hash from upper-case base32 digits.
pub fn info_hash_from_base32(text: &str) -> (r: std::result::Result<InfoHash, MagnetError>)
    ensures
        match hash_of_base32(text@) {
            Ok(h) => r matches Ok(x) && x.0@ == h,
            Err(e) => r matches Err(x) && x@ == e,
        },
{
    match base32_decode(text.as_bytes()) {
        None => Err(MagnetError::InvalidBase32),
        Some(b) => {
            if b.len() == 20 {
                let a = array20(b.as_slice(), 0);
                assert(a@ =~= b@);
                Ok(InfoHash(a))
            } else {
                Err(MagnetError::HashNotTwentyBytes)
            }
        },
    }
}

/// Read an info hash from 40 hexadecimal or 32 base32 digits of either case.
pub fn parse_info_hash(s: &str) -> (r: std::result::Result<InfoHash, MagnetError>)
    ensures
        match hash_of(s@) {
            Ok(h) => r matches Ok(x) && x.0@ == h,
            Err(e) => r matches Err(x) && x@ == e,
        },
{
    let bytes = s.as_bytes();
    if bytes.len() == 40 {
        match hex_decode(bytes) {
            Err(cause) => Err(MagnetError::InvalidHex { cause }),
            Ok(b) => {
                let a = array20(b.as_slice(), 0);
                assert(a@ =~= b@);
                Ok(InfoHash(a))
            },
        }
    } else if bytes.len() == 32 {
        let upper = to_uppercase(s);
        info_hash_from_base32(upper.as_str())
    } else {
        Err(MagnetError::HashLength { len: bytes.len() })
    }
}

// Links

/// A parsed `magnet:` URI.
#[derive(Debug, Clone)]
pub struct MagnetLink {
    pub info_hash: InfoHash,
    pub name: Option<String>,
    pub trackers: Vec<String>,
}

/// The parameters of a link that have been read so far.
pub struct LinkParams {
    pub info_hash: Option<InfoHash>,
    pub name: Option<String>,
    pub trackers: Vec<String>,
}

/// The content of [`LinkParams`].
#[verifier::ext_equal]
pub struct Params {
    pub info_hash: Option<Seq<u8>>,
    pub name: Option<Seq<char>>,
    pub trackers: Seq<Seq<char>>,
}

impl View for LinkParams {
    type V = Params;

    open spec fn view(&self) -> Params {
        Params {
            info_hash: match self.info_hash {
                Some(h) => Some(h.0@),
                None => None,
            },
            name: opt_text(self.name),
            trackers: texts(self.trackers@),
        }
    }
}

impl View for MagnetLink {
    type V = Params;

    open spec fn view(&self) -> Params {
        Params {
            info_hash: Some(self.info_hash.0@),
            name: opt_text(self.name),
            trackers: texts(self.trackers@),
        }
    }
}

impl Params {
    pub open spec fn none() -> Params {
        Params { info_hash: None, name: None, trackers: seq![] }
    }

    /// The parameters after one more, with its value already decoded. The last
    /// hash and the last name stand; trackers are collected in order.
    pub open spec fn with(self, key: Seq<char>, value: Seq<char>) -> std::result::Result<
        Params,
        MagnetError<Seq<char>>,
    > {
        if key == "xt"@ {
            if has_prefix(value, "urn:btih:"@) {
                match hash_of(value.skip("urn:btih:"@.len() as int)) {
                    Ok(h) => Ok(Params { info_hash: Some(h), ..self }),
                    Err(e) => Err(e),
                }
            } else {
                Ok(self)
            }
        } else if key == "dn"@ {
            Ok(Params { name: Some(value), ..self })
        } else if key == "tr"@ {
            Ok(Params { trackers: self.trackers.push(value), ..self })
        } else {
            Ok(self)
        }
    }

    /// The parameters after one more `key=value`; text without `=` is skipped.
    pub open spec fn with_param(self, param: Seq<char>) -> std::result::Result<
        Params,
        MagnetError<Seq<char>>,
    > {
        let eq = find_char(param, 0, '=');
        if eq < param.len() {
            self.with(param.take(eq), decoded_text(param.skip(eq + 1)))
        } else {
            Ok(self)
        }
    }
}

/// The parameters that stand in `rest` from `from` on, separated by `&`, added
/// to those read before.
pub open spec fn params_from(rest: Seq<char>, from: int, before: Params) -> std::result::Result<
    Params,
    MagnetError<Seq<char>>,
>
    decreases rest.len() - from,
{
    if from < 0 || from > rest.len() {
        Ok(before)
    } else {
        let end = find_char(rest, from, '&');
        match before.with_param(rest.subrange(from, end)) {
            Err(e) => Err(e),
            Ok(p) => if from <= end < rest.len() {
                params_from(rest, end + 1, p)
            } else {
                Ok(p)
            },
        }
    }
}

/// What a magnet URI holds.
pub open spec fn link_of(uri: Seq<char>) -> std::result::Result<Params, MagnetError<Seq<char>>> {
    let text = trimmed(uri);
    if !has_prefix(text, "magnet:?"@) {
        Err(MagnetError::MissingScheme)
    } else {
        match params_from(text.skip("magnet:?"@.len() as int), 0, Params::none()) {
            Err(e) => Err(e),
            Ok(p) => if p.info_hash is Some {
                Ok(p)
            } else {
                Err(MagnetError::MissingHash)
            },
        }
    }
}

impl LinkParams {
    pub fn new() -> (p: LinkParams)
        ensures
            p@ == Params::none(),
    {
        let p = LinkParams { info_hash: None, name: None, trackers: Vec::new() };
        assert(p@ =~= Params::none());
        p
    }

    /// Take in one parameter, whose value is already decoded.
    pub fn add(&mut self, key: &str, value: String) -> (r: std::result::Result<(), MagnetError>)
        ensures
            match old(self)@.with(key@, value@) {
                Ok(p) => r is Ok && final(self)@ == p,
                Err(e) => r matches Err(x) && x@ == e && final(self)@ == old(self)@,
            },
    {
        proof {
            reveal_strlit("xt");
            reveal_strlit("dn");
            reveal_strlit("tr");
        }
        if same_str(key, "xt") {
            let chars = chars_of(value.as_str());
            if let Some(hash) = after_prefix(&chars, "urn:btih:") {
                let text = string_of(&hash, 0, hash.len());
                assert(text@ =~= hash@);
                match parse_info_hash(text.as_str()) {
                    Ok(h) => {
                        self.info_hash = Some(h);
                    },
                    Err(e) => {
                        return Err(e);
                    },
                }
            }
        } else if same_str(key, "dn") {
            self.name = Some(value);
        } else if same_str(key, "tr") {
            self.trackers.push(value);
            assert(self@.trackers =~= old(self)@.trackers.push(value@));
        }
        Ok(())
    }

    /// The link, if the parameters hold an info hash.
    pub fn finish(self) -> (r: Result<MagnetLink>)
        ensures
            match self@.info_hash {
                Some(h) => r matches Ok(link) && link@ == self@,
                None => r matches Err(Error::InvalidMagnet(MagnetError::MissingHash)),
            },
    {
        match self.info_hash {
            Some(info_hash) => Ok(
                MagnetLink { info_hash, name: self.name, trackers: self.trackers },
            ),
            None => Err(Error::InvalidMagnet(MagnetError::MissingHash)),
        }
    }
}

impl MagnetLink {
    /// Parse a `magnet:?…` URI into a [`MagnetLink`].
    ///
    /// # Errors
    ///
    /// Returns [`crate::error::Error::InvalidMagnet`] if the URI is missing the
    /// required `xt=urn:btih:` parameter or the info hash cannot be decoded.
    pub fn parse(uri: &str) -> (r: Result<Self>)
        ensures
            match link_of(uri@) {
                Ok(p) => r matches Ok(link) && link@ == p,
                Err(e) => r matches Err(x) && x@ == Error::InvalidMagnet(e),
            },
    {
        let all = chars_of(uri);
        let (lo, hi) = trim(&all);
        let text = chars_of(string_of(&all, lo, hi).as_str());
        assert(text@ == trimmed(uri@));
        let rest = match after_prefix(&text, "magnet:?") {
            Some(rest) => rest,
            None => {
                return Err(Error::InvalidMagnet(MagnetError::MissingScheme));
            },
        };
        let mut params = LinkParams::new();
        let ghost want = params_from(rest@, 0, Params::none());
        let mut from: usize = 0;
        loop
            invariant_except_break
                want == params_from(rest@, from as int, params@),
            invariant
                from <= rest.len(),
                match want {
                    Ok(p) => link_of(uri@) == if p.info_hash is Some {
                        Ok(p)
                    } else {
                        Err(MagnetError::<Seq<char>>::MissingHash)
                    },
                    Err(e) => link_of(uri@) == Err::<Params, MagnetError<Seq<char>>>(e),
                },
            ensures
                want == Ok::<Params, MagnetError<Seq<char>>>(params@),
            decreases rest.len() - from,
        {
            let end = find_char_from(&rest, from, '&');
            let param = chars_of(string_of(&rest, from, end).as_str());
            let eq = find_char_from(&param, 0, '=');
            if eq < param.len() {
                let key = string_of(&param, 0, eq);
                let value = percent_decode(string_of(&param, eq + 1, param.len()).as_str());
                proof {
                    assert(param@.subrange(0, eq as int) =~= param@.take(eq as int));
                    assert(param@.subrange(eq + 1, param@.len() as int) =~= param@.skip(eq + 1));
                }
                if let Err(e) = params.add(key.as_str(), value) {
                    return Err(Error::InvalidMagnet(e));
                }
            }
            if end == rest.len() {
                break;
            }
            from = end + 1;
        }
        params.finish()
    }
}

// Laws

/// The hexadecimal text of an info hash is read back as that hash, in lower
/// case and in upper case.
pub proof fn lemma_hash_of_hex(h: Seq<u8>)
    requires
        h.len() == 20,
    ensures
        hash_of(hex_text(h)) == Ok::<Seq<u8>, MagnetError<Seq<char>>>(h),
        hash_of(ascii_upper_text(hex_text(h))) == Ok::<Seq<u8>, MagnetError<Seq<char>>>(h),
{
    lemma_hex_round_trip(h);
    lemma_ascii_bytes(hex_text(h));
    lemma_hex_case(h);
    lemma_ascii_bytes(ascii_upper_text(hex_text(h)));
}

/// A text of 32 ASCII characters is read in the same way in lower case and in
/// upper case: as the same info hash, or with the same error.
pub proof fn lemma_base32_case(s: Seq<char>)
    requires
        is_ascii_chars(s),
        s.len() == 32,
    ensures
        hash_of(ascii_lower_text(s)) == hash_of(s),
        hash_of(ascii_upper_text(s)) == hash_of(s),
        hash_of(s) is Ok ==> hash_of(s)->Ok_0.len() == 20,
{
    lemma_ascii_case(s);
    lemma_ascii_bytes(s);
    lemma_ascii_bytes(ascii_lower_text(s));
    lemma_ascii_bytes(ascii_upper_text(s));
}

/// A link that names the hexadecimal text of an info hash is one to that hash.
pub proof fn lemma_hash_param(p: Params, h: Seq<u8>)
    requires
        h.len() == 20,
    ensures
        p.with("xt"@, "urn:btih:"@ + hex_text(h)) == Ok::<Params, MagnetError<Seq<char>>>(
            Params { info_hash: Some(h), ..p },
        ),
{
    let value = "urn:btih:"@ + hex_text(h);
    assert(value.take("urn:btih:"@.len() as int) =~= "urn:btih:"@);
    assert(value.skip("urn:btih:"@.len() as int) =~= hex_text(h));
    lemma_hash_of_hex(h);
}

/// Percent-decoding goes on in the same way wherever the text starts.
proof fn lemma_decode_from(s: Seq<u8>, i: int)
    requires
        0 <= i <= s.len(),
    ensures
        percent_decoded(s, i) == percent_decoded(s.skip(i), 0),
    decreases s.len() - i,
{
    let t = s.skip(i);
    if i < s.len() {
        if s[i] == PERCENT && i + 2 < s.len() && escape_value(s[i + 1], s[i + 2]) is Some {
            lemma_decode_from(s, i + 3);
            lemma_decode_from(t, 3);
            assert(t.skip(3) =~= s.skip(i + 3));
        } else {
            lemma_decode_from(s, i + 1);
            lemma_decode_from(t, 1);
            assert(t.skip(1) =~= s.skip(i + 1));
        }
    }
}

/// The bytes of an ASCII text.
spec fn bytes_of(s: Seq<char>) -> Seq<u8> {
    s.map_values(|c: char| c as u8)
}

proof fn lemma_decode_escape(b: u8, rest: Seq<char>)
    ensures
        percent_decoded(bytes_of(percent(b) + rest), 0) == seq![b] + percent_decoded(
            bytes_of(rest),
            0,
        ),
{
    let s = bytes_of(percent(b) + rest);
    let hi = (b / 16) as u8;
    let lo = (b % 16) as u8;
    assert(s[0] == PERCENT);
    assert(s[1] == hex_digit(hi));
    assert(s[2] == hex_digit(lo));
    assert(escape_value(s[1], s[2]) == Some(b));
    lemma_decode_from(s, 3);
    assert(s.skip(3) =~= bytes_of(rest));
}

proof fn lemma_percent_all_front(s: Seq<u8>)
    requires
        s.len() > 0,
    ensures
        percent_all(s) == percent(s[0]) + percent_all(s.drop_first()),
    decreases s.len(),
{
    if s.len() == 1 {
        assert(s.drop_last() =~= seq![]);
        assert(s.drop_first() =~= seq![]);
        assert(percent_all(s.drop_last()) =~= seq![]);
        assert(percent_all(s) =~= percent(s[0]));
        assert(percent(s[0]) + percent_all(s.drop_first()) =~= percent(s[0]));
    } else {
        lemma_percent_all_front(s.drop_last());
        assert(s.drop_last().drop_first() =~= s.drop_first().drop_last());
        assert(percent_all(s) =~= percent(s[0]) + percent_all(s.drop_first()));
    }
}

/// How one byte stands in a URL.
spec fn url_byte(b: u8) -> Seq<char> {
    if is_unreserved(b) {
        seq![b as char]
    } else {
        percent(b)
    }
}

proof fn lemma_percent_reserved_front(s: Seq<u8>)
    requires
        s.len() > 0,
    ensures
        percent_reserved(s) == url_byte(s[0]) + percent_reserved(s.drop_first()),
    decreases s.len(),
{
    if s.len() == 1 {
        assert(s.drop_last() =~= seq![]);
        assert(s.drop_first() =~= seq![]);
        assert(percent_reserved(s.drop_last()) =~= seq![]);
        assert(percent_reserved(s) =~= url_byte(s[0]));
        assert(url_byte(s[0]) + percent_reserved(s.drop_first()) =~= url_byte(s[0]));
    } else {
        lemma_percent_reserved_front(s.drop_last());
        assert(s.drop_last().drop_first() =~= s.drop_first().drop_last());
        assert(percent_reserved(s) =~= url_byte(s[0]) + percent_reserved(s.drop_first()));
    }
}

proof fn lemma_percent_ascii(s: Seq<u8>)
    ensures
        is_ascii_chars(percent_all(s)),
        is_ascii_chars(percent_reserved(s)),
    decreases s.len(),
{
    if s.len() > 0 {
        lemma_percent_ascii(s.drop_last());
    }
}

/// Decoding the percent-encoding of a byte string gives it back, whether every
/// byte was encoded or the unreserved ones were left as they are.
pub proof fn lemma_percent_round_trip(s: Seq<u8>)
    ensures
        percent_decoded(encode_utf8(percent_all(s)), 0) == s,
        percent_decoded(encode_utf8(percent_reserved(s)), 0) == s,
    decreases s.len(),
{
    lemma_percent_ascii(s);
    lemma_ascii_bytes(percent_all(s));
    lemma_ascii_bytes(percent_reserved(s));
    if s.len() > 0 {
        let rest = s.drop_first();
        lemma_percent_round_trip(rest);
        lemma_percent_ascii(rest);
        lemma_ascii_bytes(percent_all(rest));
        lemma_ascii_bytes(percent_reserved(rest));
        lemma_percent_all_front(s);
        lemma_decode_escape(s[0], percent_all(rest));
        lemma_percent_reserved_front(s);
        if is_unreserved(s[0]) {
            let t = bytes_of(percent_reserved(s));
            assert(t[0] == s[0]);
            lemma_decode_from(t, 1);
            assert(t.skip(1) =~= bytes_of(percent_reserved(rest)));
        } else {
            lemma_decode_escape(s[0], percent_reserved(rest));
        }
        assert(seq![s[0]] + rest =~= s);
    }
}

proof fn lemma_ascii_bytes(s: Seq<char>)
    requires
        is_ascii_chars(s),
    ensures
        encode_utf8(s) == bytes_of(s),
{
    is_ascii_chars_encode_utf8(s);
    assert(encode_utf8(s) =~= bytes_of(s));
}

// Whole links

/// A text as it stands in a URL.
pub open spec fn url_text(s: Seq<char>) -> Seq<char> {
    percent_reserved(encode_utf8(s))
}

/// The name parameter of a link.
pub open spec fn name_param(name: Option<Seq<char>>) -> Seq<char> {
    match name {
        Some(name) => "&dn="@ + url_text(name),
        None => seq![],
    }
}

/// The tracker parameters of a link.
pub open spec fn tracker_params(trackers: Seq<Seq<char>>) -> Seq<char>
    decreases trackers.len(),
{
    if trackers.len() == 0 {
        seq![]
    } else {
        "&tr="@ + url_text(trackers[0]) + tracker_params(trackers.drop_first())
    }
}

/// A link with the given text of an info hash, name and trackers.
pub open spec fn link_text(
    hash: Seq<char>,
    name: Option<Seq<char>>,
    trackers: Seq<Seq<char>>,
) -> Seq<char> {
    "magnet:?"@ + ("xt=urn:btih:"@ + hash + (name_param(name) + tracker_params(trackers)))
}

/// Whether a text has no character with a meaning of its own in a link.
pub open spec fn is_plain(s: Seq<char>) -> bool {
    forall|i: int|
        0 <= i < s.len() ==> {
            let c = #[trigger] s[i];
            ' ' < c <= '~' && c != '&' && c != '=' && c != '+'
        }
}

proof fn lemma_url_text_plain(b: Seq<u8>)
    ensures
        is_plain(percent_reserved(b)),
    decreases b.len(),
{
    if b.len() > 0 {
        lemma_url_text_plain(b.drop_last());
    }
}

proof fn lemma_nothing_to_decode(s: Seq<u8>, i: int)
    requires
        0 <= i <= s.len(),
        forall|k: int| 0 <= k < s.len() ==> #[trigger] s[k] != PERCENT && s[k] != PLUS,
    ensures
        percent_decoded(s, i) == s.skip(i),
    decreases s.len() - i,
{
    if i < s.len() {
        lemma_nothing_to_decode(s, i + 1);
        assert(seq![s[i]] + s.skip(i + 1) =~= s.skip(i));
    } else {
        assert(s.skip(i) =~= seq![]);
    }
}

/// What was encoded for a URL is decoded again, and an unreserved text stands
/// for itself.
pub proof fn lemma_decoded_text(s: Seq<char>)
    ensures
        decoded_text(url_text(s)) == s,
        is_ascii_chars(s) && (forall|i: int|
            0 <= i < s.len() ==> #[trigger] s[i] != '%' && s[i] != '+') ==> decoded_text(s) == s,
{
    lemma_percent_round_trip(encode_utf8(s));
    encode_utf8_valid_utf8(s);
    encode_utf8_decode_utf8(s);
    if is_ascii_chars(s) && (forall|i: int|
        0 <= i < s.len() ==> #[trigger] s[i] != '%' && s[i] != '+') {
        lemma_ascii_bytes(s);
        let b = bytes_of(s);
        assert forall|k: int| 0 <= k < b.len() implies #[trigger] b[k] != PERCENT && b[k]
            != PLUS by {
            assert((s[k] as nat) < 128);
            assert(s[k] != '%' && s[k] != '+');
        }
        lemma_nothing_to_decode(b, 0);
        assert(b.skip(0) =~= b);
    }
}

proof fn lemma_find_char_is(s: Seq<char>, from: int, c: char, at: int)
    requires
        0 <= from <= at <= s.len(),
        at < s.len() ==> s[at] == c,
        forall|i: int| from <= i < at ==> s[i] != c,
    ensures
        find_char(s, from, c) == at,
    decreases at - from,
{
    if from < at {
        lemma_find_char_is(s, from + 1, c, at);
    }
}

proof fn lemma_find_char_skip(s: Seq<char>, n: int, from: int, c: char)
    requires
        0 <= n,
        0 <= from,
        n + from <= s.len(),
    ensures
        find_char(s, n + from, c) == n + find_char(s.skip(n), from, c),
    decreases s.len() - n - from,
{
    if n + from < s.len() && s[n + from] != c {
        lemma_find_char_skip(s, n, from + 1, c);
    }
}

proof fn lemma_find_char_bounds(s: Seq<char>, from: int, c: char)
    requires
        0 <= from <= s.len(),
    ensures
        from <= find_char(s, from, c) <= s.len(),
    decreases s.len() - from,
{
    if from < s.len() && s[from] != c {
        lemma_find_char_bounds(s, from + 1, c);
    }
}

/// The parameters from a position on are those of the text from there on.
proof fn lemma_params_skip(rest: Seq<char>, n: int, from: int, p: Params)
    requires
        0 <= n,
        0 <= from,
        n + from <= rest.len(),
    ensures
        params_from(rest, n + from, p) == params_from(rest.skip(n), from, p),
    decreases rest.len() - n - from,
{
    let tail = rest.skip(n);
    let end = find_char(tail, from, '&');
    lemma_find_char_skip(rest, n, from, '&');
    lemma_find_char_bounds(tail, from, '&');
    assert(rest.subrange(n + from, n + end) =~= tail.subrange(from, end));
    if end < tail.len() {
        if let Ok(q) = p.with_param(tail.subrange(from, end)) {
            lemma_params_skip(rest, n, end + 1, q);
        }
    }
}

/// A parameter is read first, and then what follows it.
proof fn lemma_param_then(key: Seq<char>, value: Seq<char>, tail: Seq<char>, p: Params)
    requires
        is_plain(key),
        is_plain(value),
        tail.len() > 0 ==> tail[0] == '&',
    ensures
        params_from(key + seq!['='] + value + tail, 0, p) == match p.with(
            key,
            decoded_text(value),
        ) {
            Err(e) => Err(e),
            Ok(q) => if tail.len() == 0 {
                Ok(q)
            } else {
                params_from(tail.drop_first(), 0, q)
            },
        },
{
    let param = key + seq!['='] + value;
    let all = param + tail;
    let n = param.len() as int;
    let k = key.len() as int;
    assert forall|i: int| 0 <= i < n implies all[i] != '&' by {
        if i < k {
            assert(all[i] == key[i]);
        } else if i > k {
            assert(all[i] == value[i - k - 1]);
        }
    }
    lemma_find_char_is(all, 0, '&', n);
    assert(all.subrange(0, n) =~= param);
    assert forall|i: int| 0 <= i < k implies param[i] != '=' by {
        assert(param[i] == key[i]);
    }
    lemma_find_char_is(param, 0, '=', k);
    assert(param.take(k) =~= key);
    assert(param.skip(k + 1) =~= value);
    if tail.len() > 0 {
        if let Ok(q) = p.with(key, decoded_text(value)) {
            assert(all.skip(n + 1) =~= tail.drop_first());
            lemma_params_skip(all, n + 1, 0, q);
        }
    }
}

proof fn lemma_tracker_params(trackers: Seq<Seq<char>>, p: Params)
    requires
        trackers.len() > 0,
    ensures
        tracker_params(trackers).len() > 0,
        tracker_params(trackers)[0] == '&',
        params_from(tracker_params(trackers).drop_first(), 0, p) == Ok::<
            Params,
            MagnetError<Seq<char>>,
        >(Params { trackers: p.trackers + trackers, ..p }),
    decreases trackers.len(),
{
    reveal_strlit("&tr=");
    reveal_strlit("tr");
    reveal_strlit("xt");
    reveal_strlit("dn");
    let rest = trackers.drop_first();
    let tail = tracker_params(rest);
    let value = url_text(trackers[0]);
    lemma_url_text_plain(encode_utf8(trackers[0]));
    lemma_decoded_text(trackers[0]);
    let q = Params { trackers: p.trackers.push(trackers[0]), ..p };
    assert("tr"@ != "xt"@ && "tr"@ != "dn"@) by {
        assert("tr"@[0] == 't' && "xt"@[0] == 'x' && "dn"@[0] == 'd');
    }
    if rest.len() > 0 {
        lemma_tracker_params(rest, q);
    }
    lemma_param_then("tr"@, value, tail, p);
    assert(tracker_params(trackers).drop_first() =~= "tr"@ + seq!['='] + value + tail);
    if rest.len() == 0 {
        assert(p.trackers.push(trackers[0]) =~= p.trackers + trackers);
    } else {
        assert(q.trackers + rest =~= p.trackers + trackers);
    }
}

proof fn lemma_tracker_params_end(trackers: Seq<Seq<char>>)
    ensures
        tracker_params(trackers).len() > 0 ==> !is_whitespace(tracker_params(trackers).last()),
    decreases trackers.len(),
{
    if trackers.len() > 0 {
        reveal_strlit("&tr=");
        let value = url_text(trackers[0]);
        lemma_url_text_plain(encode_utf8(trackers[0]));
        lemma_tracker_params_end(trackers.drop_first());
        if trackers.len() > 1 {
            lemma_tracker_params(trackers.drop_first(), Params::none());
        } else {
            assert(tracker_params(trackers.drop_first()) =~= seq![]);
            assert(tracker_params(trackers) =~= "&tr="@ + value);
            if value.len() > 0 {
                assert(tracker_params(trackers).last() == value.last());
            }
        }
    }
}

proof fn lemma_not_trimmed(s: Seq<char>)
    requires
        s.len() > 0,
        !is_whitespace(s[0]),
        !is_whitespace(s.last()),
    ensures
        trimmed(s) == s,
{
}

/// Whether a character is an ASCII letter or digit.
pub open spec fn is_alphanumeric(c: char) -> bool {
    '0' <= c <= '9' || 'a' <= c <= 'z' || 'A' <= c <= 'Z'
}

proof fn lemma_prefix_plain()
    ensures
        "urn:btih:"@.len() == 9,
        is_plain("urn:btih:"@),
        forall|i: int| 0 <= i < 9 ==> #[trigger] "urn:btih:"@[i] != '%',
{
    reveal_strlit("urn:btih:");
}

/// The value of the parameter that names an info hash stands for itself.
proof fn lemma_hash_value(hash: Seq<char>)
    requires
        forall|i: int| 0 <= i < hash.len() ==> is_alphanumeric(#[trigger] hash[i]),
    ensures
        is_plain("urn:btih:"@ + hash),
        decoded_text("urn:btih:"@ + hash) == "urn:btih:"@ + hash,
{
    let value = "urn:btih:"@ + hash;
    lemma_prefix_plain();
    assert forall|i: int| 0 <= i < value.len() implies {
        let c = #[trigger] value[i];
        ' ' < c <= '~' && c != '&' && c != '=' && c != '+' && c != '%'
    } by {
        if i >= 9 {
            assert(is_alphanumeric(hash[i - 9]));
            assert(value[i] == hash[i - 9]);
        } else {
            assert(value[i] == "urn:btih:"@[i]);
        }
    }
    assert forall|i: int| 0 <= i < value.len() implies (#[trigger] value[i] as nat) < 128 by {
        assert(value[i] <= '~');
    }
    assert(is_ascii_chars(value));
    lemma_decoded_text(value);
}

/// The parameters after the hash add the name and the trackers.
proof fn lemma_other_params(name: Option<Seq<char>>, trackers: Seq<Seq<char>>, p: Params)
    requires
        p.name is None,
    ensures
        ({
            let tail = name_param(name) + tracker_params(trackers);
            let want = Params { name, trackers: p.trackers + trackers, ..p };
            if tail.len() == 0 {
                p == want
            } else {
                tail[0] == '&' && !is_whitespace(tail.last()) && params_from(
                    tail.drop_first(),
                    0,
                    p,
                ) == Ok::<Params, MagnetError<Seq<char>>>(want)
            }
        }),
{
    let ends = tracker_params(trackers);
    let tail = name_param(name) + ends;
    let want = Params { name, trackers: p.trackers + trackers, ..p };
    lemma_tracker_params_end(trackers);
    match name {
        Some(n) => {
            reveal_strlit("&dn=");
            reveal_strlit("xt");
            reveal_strlit("dn");
            let value = url_text(n);
            lemma_url_text_plain(encode_utf8(n));
            lemma_decoded_text(n);
            let q = Params { name: Some(n), ..p };
            assert("dn"@ != "xt"@) by {
                assert("dn"@[0] == 'd' && "xt"@[0] == 'x');
            }
            if trackers.len() > 0 {
                lemma_tracker_params(trackers, q);
                assert(tail.last() == ends.last());
            } else {
                assert(q =~= want);
                assert(tail =~= "&dn="@ + value);
                if value.len() > 0 {
                    assert(tail.last() == value.last());
                }
            }
            lemma_param_then("dn"@, value, ends, p);
            assert(tail.drop_first() =~= "dn"@ + seq!['='] + value + ends);
        },
        None => {
            assert(tail =~= ends);
            if trackers.len() > 0 {
                lemma_tracker_params(trackers, p);
            } else {
                assert(p =~= want);
            }
        },
    }
}

/// A link is read as what it was made of: its info hash, in whatever form it is
/// written, its name, and its trackers in order.
#[verifier::spinoff_prover]
pub proof fn lemma_link_round_trip(
    hash: Seq<char>,
    h: Seq<u8>,
    name: Option<Seq<char>>,
    trackers: Seq<Seq<char>>,
)
    requires
        forall|i: int| 0 <= i < hash.len() ==> is_alphanumeric(#[trigger] hash[i]),
        hash_of(hash) == Ok::<Seq<u8>, MagnetError<Seq<char>>>(h),
    ensures
        link_of(link_text(hash, name, trackers)) == Ok::<Params, MagnetError<Seq<char>>>(
            Params { info_hash: Some(h), name, trackers },
        ),
{
    reveal_strlit("magnet:?");
    reveal_strlit("xt=urn:btih:");
    reveal_strlit("urn:btih:");
    reveal_strlit("xt");
    let none = Params::none();
    let tail = name_param(name) + tracker_params(trackers);
    let value = "urn:btih:"@ + hash;
    let rest = "xt=urn:btih:"@ + hash + tail;
    let uri = link_text(hash, name, trackers);
    lemma_hash_value(hash);
    assert(value.take("urn:btih:"@.len() as int) =~= "urn:btih:"@);
    assert(value.skip("urn:btih:"@.len() as int) =~= hash);
    let p = Params { info_hash: Some(h), ..none };
    assert(none.with("xt"@, value) == Ok::<Params, MagnetError<Seq<char>>>(p));
    lemma_other_params(name, trackers, p);
    assert(none.trackers + trackers =~= trackers);
    lemma_param_then("xt"@, value, tail, none);
    assert(rest =~= "xt"@ + seq!['='] + value + tail);
    assert(uri =~= "magnet:?"@ + rest);
    assert(uri.take("magnet:?"@.len() as int) =~= "magnet:?"@);
    assert(uri.skip("magnet:?"@.len() as int) =~= rest);
    assert(!is_whitespace(uri.last())) by {
        if tail.len() > 0 {
            assert(uri.last() == tail.last());
        } else {
            assert(uri.last() == value.last());
            assert(value[value.len() - 1] == value.last());
        }
    }
    assert(uri[0] == 'm');
    lemma_not_trimmed(uri);
}

/// A link that names the hexadecimal text of an info hash, in lower case or in
/// upper case, is one to that hash.
pub proof fn lemma_hex_link(h: Seq<u8>, name: Option<Seq<char>>, trackers: Seq<Seq<char>>)
    requires
        h.len() == 20,
    ensures
        link_of(link_text(hex_text(h), name, trackers)) == Ok::<Params, MagnetError<Seq<char>>>(
            Params { info_hash: Some(h), name, trackers },
        ),
        link_of(link_text(ascii_upper_text(hex_text(h)), name, trackers)) == Ok::<
            Params,
            MagnetError<Seq<char>>,
        >(Params { info_hash: Some(h), name, trackers }),
{
    let lower = hex_text(h);
    let upper = ascii_upper_text(lower);
    lemma_hash_of_hex(h);
    assert forall|i: int| 0 <= i < lower.len() implies is_alphanumeric(#[trigger] lower[i]) by {
        assert(0 <= i / 2 < h.len());
    }
    assert forall|i: int| 0 <= i < upper.len() implies is_alphanumeric(#[trigger] upper[i]) by {
        assert(is_alphanumeric(lower[i]));
    }
    lemma_link_round_trip(lower, h, name, trackers);
    lemma_link_round_trip(upper, h, name, trackers);
}

proof fn lemma_trim_start(space: Seq<char>, s: Seq<char>)
    requires
        forall|i: int| 0 <= i < space.len() ==> is_whitespace(#[trigger] space[i]),
    ensures
        trim_start(space + s) == trim_start(s),
    decreases space.len(),
{
    if space.len() > 0 {
        assert((space + s)[0] == space[0]);
        assert((space + s).drop_first() =~= space.drop_first() + s);
        lemma_trim_start(space.drop_first(), s);
    } else {
        assert(space + s =~= s);
    }
}

proof fn lemma_trim_end(s: Seq<char>, space: Seq<char>)
    requires
        forall|i: int| 0 <= i < space.len() ==> is_whitespace(#[trigger] space[i]),
    ensures
        trim_end(s + space) == trim_end(s),
    decreases space.len(),
{
    if space.len() > 0 {
        assert((s + space).last() == space.last());
        assert((s + space).drop_last() =~= s + space.drop_last());
        lemma_trim_end(s, space.drop_last());
    } else {
        assert(s + space =~= s);
    }
}

/// Whitespace around a link does not matter.
pub proof fn lemma_space_around(before: Seq<char>, link: Seq<char>, after: Seq<char>)
    requires
        forall|i: int| 0 <= i < before.len() ==> is_whitespace(#[trigger] before[i]),
        forall|i: int| 0 <= i < after.len() ==> is_whitespace(#[trigger] after[i]),
        link.len() > 0,
        !is_whitespace(link[0]),
    ensures
        link_of(before + link + after) == link_of(link),
        is_whitespace(' ') && is_whitespace('\t') && is_whitespace('\n') && is_whitespace('\r'),
        forall|c: char| '!' <= c <= '~' ==> !is_whitespace(c),
{
    assert(before + link + after =~= before + (link + after));
    lemma_trim_start(before, link + after);
    assert((link + after)[0] == link[0]);
    assert(trim_start(link + after) == link + after);
    assert(trim_start(link) == link);
    lemma_trim_end(link, after);
}

/// A name is kept, a tracker is added behind the others, and a parameter of
/// another kind changes nothing; none of them touches what was read before.
pub proof fn lemma_params(p: Params, key: Seq<char>, value: Seq<char>)
    ensures
        p.with("dn"@, value) == Ok::<Params, MagnetError<Seq<char>>>(
            Params { info_hash: p.info_hash, name: Some(value), trackers: p.trackers },
        ),
        p.with("tr"@, value) == Ok::<Params, MagnetError<Seq<char>>>(
            Params { info_hash: p.info_hash, name: p.name, trackers: p.trackers.push(value) },
        ),
        key != "xt"@ && key != "dn"@ && key != "tr"@ ==> p.with(key, value) == Ok::<
            Params,
            MagnetError<Seq<char>>,
        >(p),
        !has_prefix(value, "urn:btih:"@) ==> p.with("xt"@, value) == Ok::<
            Params,
            MagnetError<Seq<char>>,
        >(p),
        p.with("xt"@, "urn:btih:"@ + value) == match hash_of(value) {
            Ok(h) => Ok::<Params, MagnetError<Seq<char>>>(
                Params { info_hash: Some(h), name: p.name, trackers: p.trackers },
            ),
            Err(e) => Err(e),
        },
{
    reveal_strlit("xt");
    reveal_strlit("dn");
    reveal_strlit("tr");
    assert("xt"@[0] == 'x' && "dn"@[0] == 'd' && "tr"@[0] == 't');
    lemma_has_prefix(value, "urn:btih:"@, value);
    assert(("urn:btih:"@ + value).skip("urn:btih:"@.len() as int) =~= value);
}

/// Parameters are read one after the other: the first one, then what follows
/// the ampersand behind it. What has no equals sign is passed over.
pub proof fn lemma_first_param(
    key: Seq<char>,
    value: Seq<char>,
    odd: Seq<char>,
    rest: Seq<char>,
    p: Params,
)
    requires
        is_plain(key),
        is_plain(value),
        is_plain(odd),
    ensures
        params_from(key + seq!['='] + value + (seq!['&'] + rest), 0, p) == match p.with(
            key,
            decoded_text(value),
        ) {
            Ok(q) => params_from(rest, 0, q),
            Err(e) => Err::<Params, MagnetError<Seq<char>>>(e),
        },
        params_from(odd + (seq!['&'] + rest), 0, p) == params_from(rest, 0, p),
{
    let tail = seq!['&'] + rest;
    assert(tail.drop_first() =~= rest);
    lemma_param_then(key, value, tail, p);
    let all = odd + tail;
    let n = odd.len() as int;
    assert forall|i: int| 0 <= i < n implies all[i] != '&' by {
        assert(all[i] == odd[i]);
    }
    lemma_find_char_is(all, 0, '&', n);
    assert(all.subrange(0, n) =~= odd);
    lemma_find_char_is(odd, 0, '=', n);
    assert(all.skip(n + 1) =~= rest);
    lemma_params_skip(all, n + 1, 0, p);
}

/// What is no magnet link, or one without a hash, is rejected, and so is one
/// whose hash is too long, too short or not made of digits.
pub proof fn lemma_rejected(text: Seq<char>)
    requires
        text.len() > 0,
        !is_whitespace(text[0]),
        !is_whitespace(text.last()),
    ensures
        !has_prefix(text, "magnet:?"@) ==> link_of(text) == Err::<Params, MagnetError<Seq<char>>>(
            MagnetError::MissingScheme,
        ),
        link_of(text) matches Ok(p) ==> p.info_hash is Some,
        encode_utf8(text).len() != 40 && encode_utf8(text).len() != 32 ==> hash_of(text) == Err::<
            Seq<u8>,
            MagnetError<Seq<char>>,
        >(MagnetError::HashLength { len: encode_utf8(text).len() as usize }),
        encode_utf8(text).len() == 40 && !is_hex(encode_utf8(text)) ==> (hash_of(
            text,
        ) matches Err(MagnetError::InvalidHex { .. })),
        (exists|i: int|
            0 <= i < encode_utf8(text).len() && !is_base32(#[trigger] encode_utf8(text)[i]))
            ==> hash_of_base32(text) == Err::<Seq<u8>, MagnetError<Seq<char>>>(
            MagnetError::InvalidBase32,
        ),
{
}

/// A text without percent signs stands for itself, but for plus signs, which
/// stand for spaces; so does a percent sign that is not followed by two
/// hexadecimal digits.
pub proof fn lemma_nothing_escaped(s: Seq<u8>, i: int)
    requires
        0 <= i <= s.len(),
        forall|k: int|
            i <= k < s.len() ==> #[trigger] s[k] != 0x25 || k + 2 >= s.len() || !is_hex_digit(
                s[k + 1],
            ) || !is_hex_digit(s[k + 2]),
    ensures
        percent_decoded(s, i) == s.skip(i).map_values(
            |b: u8|
                if b == 0x2b {
                    0x20u8
                } else {
                    b
                },
        ),
    decreases s.len() - i,
{
    let f = |b: u8|
        if b == 0x2b {
            0x20u8
        } else {
            b
        };
    if i < s.len() {
        assert(s[i] != 0x25 || i + 2 >= s.len() || !is_hex_digit(s[i + 1]) || !is_hex_digit(
            s[i + 2],
        ));
        lemma_nothing_escaped(s, i + 1);
        assert(percent_decoded(s, i) == seq![f(s[i])] + percent_decoded(s, i + 1));
        assert(seq![f(s[i])] + s.skip(i + 1).map_values(f) =~= s.skip(i).map_values(f));
    } else {
        assert(s.skip(i).map_values(f) =~= seq![]);
    }
}

/// The digits of base32 are the letters from A on and the figures 2 to 7.
pub proof fn lemma_base32_digits(b: u8)
    ensures
        0x41 <= b <= 0x5a ==> is_base32(b) && base32_digit(b) == b - 0x41,
        0x32 <= b <= 0x37 ==> is_base32(b) && base32_digit(b) == b - 0x32 + 26,
        !(0x41 <= b <= 0x5a) && !(0x32 <= b <= 0x37) ==> !is_base32(b),
{
}

/// The number with the given bytes, the most significant one first.
pub open spec fn bytes_value(s: Seq<u8>) -> nat
    decreases s.len(),
{
    if s.len() == 0 {
        0
    } else {
        bytes_value(s.drop_last()) * 256 + s.last() as nat
    }
}

/// Base32 digits and the bytes that they decode to are the same number, but for
/// the bits that do not fill a byte.
pub proof fn lemma_base32_is_number(s: Seq<u8>)
    requires
        forall|i: int| 0 <= i < s.len() ==> is_base32(#[trigger] s[i]),
    ensures
        base32_bytes(s).len() == 5 * s.len() / 8,
        bytes_value(base32_bytes(s)) == base32_value(s) / pow2((5 * s.len() % 8) as nat),
        s.len() == 32 ==> base32_bytes(s).len() == 20 && bytes_value(base32_bytes(s))
            == base32_value(s),
{
    let all = base32_bytes(s);
    lemma_base32_prefix(s, all.len() as int);
    assert(all.take(all.len() as int) =~= all);
    lemma2_to64();
    let v = base32_value(s) as int;
    if s.len() == 32 {
        assert((5 * s.len() % 8) as nat == 0nat);
        assert(v / 1 == v);
    }
}

proof fn lemma_base32_prefix(s: Seq<u8>, k: int)
    requires
        forall|i: int| 0 <= i < s.len() ==> is_base32(#[trigger] s[i]),
        0 <= k <= base32_bytes(s).len(),
    ensures
        bytes_value(base32_bytes(s).take(k)) == base32_value(s) / pow2(
            (5 * s.len() - 8 * k) as nat,
        ),
    decreases k,
{
    let all = base32_bytes(s);
    let v = base32_value(s);
    if k > 0 {
        lemma_base32_prefix(s, k - 1);
        assert(all.take(k).drop_last() =~= all.take(k - 1));
        let e = (5 * s.len() - 8 * k) as nat;
        lemma_pow2_adds(e, 8);
        lemma_pow2_pos(e);
        lemma2_to64();
        lemma_div_denominator(v as int, pow2(e) as int, 256);
        let q = v as int / pow2(e) as int;
        lemma_fundamental_div_mod(q, 256);
        assert(all.take(k).last() == all[k - 1]);
    } else {
        lemma_base32_bound(s);
        assert(v as int / pow2(5 * s.len()) as int == 0) by (nonlinear_arith)
            requires
                0 <= v < pow2(5 * s.len()),
        ;
        assert(all.take(0) =~= seq![]);
    }
}

proof fn lemma_base32_bound(s: Seq<u8>)
    requires
        forall|i: int| 0 <= i < s.len() ==> is_base32(#[trigger] s[i]),
    ensures
        base32_value(s) < pow2(5 * s.len()),
    decreases s.len(),
{
    if s.len() > 0 {
        let head = s.drop_last();
        assert forall|i: int| 0 <= i < head.len() implies is_base32(#[trigger] head[i]) by {
            assert(is_base32(s[i]));
        }
        assert(is_base32(s[s.len() - 1]));
        lemma_base32_bound(head);
        lemma_pow2_adds(5 * head.len(), 5);
        lemma2_to64();
        assert(pow2(5 * s.len()) == 32 * pow2(5 * head.len())) by (nonlinear_arith)
            requires
                pow2(5 * s.len()) == pow2(5 * head.len()) * 32,
        ;
    } else {
        lemma2_to64();
    }
}

} // verus!

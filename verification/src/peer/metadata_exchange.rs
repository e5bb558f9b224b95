//! BEP-9 / BEP-10 — Extension protocol handshake + ut_metadata exchange.
//!
//! This allows fetching torrent metadata (the "info" dict) from peers using
//! only a magnet link (info_hash + optional tracker list).
//!
//! Protocol summary:
//!   1. During BEP-10 handshake (ext_id=0) both sides advertise extensions.
//!      We advertise `{"m":{"ut_metadata":1},"reqq":500}`.
//!   2. If the peer supports ut_metadata we request pieces one at a time:
//!      `{"msg_type":0, "piece":N}` (sent as an Extension message with the
//!      peer's id for ut_metadata)
//!   3. Peer replies with `{"msg_type":1, "piece":N, "total_size":T}` followed
//!      immediately by the raw metadata bytes for that piece (16 KiB each, last
//!      may be shorter).
//!   4. After all pieces are received we SHA-1 hash the entire metadata block
//!      and verify against the info_hash.
//!   5. We then bencode-parse the info dict and construct a `Metainfo`.

use vstd::prelude::*;
use vstd::slice::slice_subrange;
use vstd::string::StringSliceAdditionalSpecFns;
use vstd::utf8::is_ascii_chars_encode_utf8;

use crate::bencode::{
    decode, encode, encode_bytes, encode_entries, encode_items, find_from, finite,
    lemma_decode_encode, lemma_encode_entries_prefix, lemma_encode_entries_take, lemma_encode_first,
    lemma_lengths_fit,
    lemma_encode_items_prefix, lemma_encode_items_take, lemma_encode_one, lemma_encode_two,
    lemma_find_from, lemma_find_from_is, lemma_sorted_keys, lemma_stands_byte, lemma_stands_parts,
    sorted_keys, stands_at, value_at, Tree, COLON, LOWER_D, LOWER_E, LOWER_I, LOWER_L,
};
use crate::digest::{sha1, sha1_digest};
use crate::error::{BencodeError, Error, PeerError, Result};
use crate::metainfo::{metainfo_of, wrapped, Metainfo, Torrent};
use crate::octets::{append_bytes, copy_range, differs_at, same_bytes};
use crate::peer::handshake::PeerCapabilities;
use crate::text::{
    append_decimal, decimal, is_digit, lemma_decimal, lemma_i64_of_signed_decimal, parse_unsigned,
    signed_decimal, unsigned_of, MINUS,
};
use crate::types::InfoHash;

verus! {

pub const METADATA_PIECE_SIZE: usize = 16384;

pub const UT_METADATA_EXT_ID: u8 = 1;

// Where a value ends

/// Where the bencoded value at `pos` ends, without reading its contents. A byte
/// string that ends beyond the data still has an end.
pub open spec fn end_at(data: Seq<u8>, pos: int) -> std::result::Result<int, BencodeError<Seq<char>>>
    decreases data.len() - pos, 0int,
{
    if pos < 0 || pos >= data.len() {
        Err(BencodeError::EmptyPayload)
    } else if data[pos] == LOWER_D {
        pairs_end_at(data, pos + 1)
    } else if data[pos] == LOWER_L {
        list_end_at(data, pos + 1)
    } else if data[pos] == LOWER_I {
        match find_from(data, pos, LOWER_E) {
            Some(e) => Ok(e + 1),
            None => Err(BencodeError::UnterminatedInt),
        }
    } else if is_digit(data[pos]) {
        match find_from(data, pos, COLON) {
            None => Err(BencodeError::MissingColon),
            Some(colon) => match unsigned_of(data.subrange(pos, colon), usize::MAX as nat) {
                None => Err(BencodeError::InvalidStringLength),
                Some(len) => if colon + 1 + len <= usize::MAX {
                    Ok(colon + 1 + len)
                } else {
                    Err(BencodeError::StringPastEnd)
                },
            },
        }
    } else {
        Err(BencodeError::UnexpectedToken)
    }
}

/// Where a list ends whose next item stands at `pos`.
pub open spec fn list_end_at(data: Seq<u8>, pos: int) -> std::result::Result<int, BencodeError<Seq<char>>>
    decreases data.len() - pos, 1int,
{
    if pos < 0 || pos >= data.len() {
        Err(BencodeError::UnterminatedList)
    } else if data[pos] == LOWER_E {
        Ok(pos + 1)
    } else {
        match end_at(data, pos) {
            Err(e) => Err(e),
            Ok(next) => if pos < next <= data.len() {
                list_end_at(data, next)
            } else {
                Err(BencodeError::UnterminatedList)
            },
        }
    }
}

/// Where a dictionary ends whose next key stands at `pos`.
pub open spec fn pairs_end_at(data: Seq<u8>, pos: int) -> std::result::Result<int, BencodeError<Seq<char>>>
    decreases data.len() - pos, 1int,
{
    if pos < 0 || pos >= data.len() {
        Err(BencodeError::UnterminatedDict)
    } else if data[pos] == LOWER_E {
        Ok(pos + 1)
    } else {
        match end_at(data, pos) {
            Err(e) => Err(e),
            Ok(value) => if value <= pos || value > data.len() {
                Err(BencodeError::StringPastEnd)
            } else {
                match end_at(data, value) {
                    Err(e) => Err(e),
                    Ok(next) => if pos < next <= data.len() {
                        pairs_end_at(data, next)
                    } else {
                        Err(BencodeError::UnterminatedDict)
                    },
                }
            },
        }
    }
}

proof fn lemma_end_progress(data: Seq<u8>, pos: int)
    requires
        0 <= pos,
    ensures
        end_at(data, pos) matches Ok(end) ==> end > pos,
        pos < data.len() && data.len() <= usize::MAX ==> (end_at(data, pos) matches Ok(end) ==> end
            <= usize::MAX),
    decreases data.len() - pos, 0int,
{
    if pos < data.len() {
        if data[pos] == LOWER_D {
            lemma_pairs_progress(data, pos + 1);
        } else if data[pos] == LOWER_L {
            lemma_list_progress(data, pos + 1);
        } else if data[pos] == LOWER_I {
            lemma_find_from(data, pos, LOWER_E);
        } else {
            lemma_find_from(data, pos, COLON);
        }
    }
}

proof fn lemma_list_progress(data: Seq<u8>, pos: int)
    requires
        0 <= pos,
    ensures
        list_end_at(data, pos) matches Ok(end) ==> pos < end <= data.len(),
    decreases data.len() - pos, 1int,
{
    if pos < data.len() && data[pos] != LOWER_E {
        if let Ok(next) = end_at(data, pos) {
            if pos < next <= data.len() {
                lemma_list_progress(data, next);
            }
        }
    }
}

proof fn lemma_pairs_progress(data: Seq<u8>, pos: int)
    requires
        0 <= pos,
    ensures
        pairs_end_at(data, pos) matches Ok(end) ==> pos < end <= data.len(),
    decreases data.len() - pos, 1int,
{
    if pos < data.len() && data[pos] != LOWER_E {
        if let Ok(value) = end_at(data, pos) {
            if pos < value <= data.len() {
                if let Ok(next) = end_at(data, value) {
                    if pos < next <= data.len() {
                        lemma_pairs_progress(data, next);
                    }
                }
            }
        }
    }
}

/// The first index at or after `from` that holds `byte`.
fn find_byte(data: &[u8], from: usize, byte: u8) -> (r: Option<usize>)
    requires
        from <= data.len(),
    ensures
        match find_from(data@, from as int, byte) {
            Some(i) => r == Some(i as usize) && from <= i < data.len(),
            None => r is None,
        },
{
    let mut i: usize = from;
    while i < data.len()
        invariant
            from <= i <= data.len(),
            find_from(data@, from as int, byte) == find_from(data@, i as int, byte),
        decreases data.len() - i,
    {
        if data[i] == byte {
            return Some(i);
        }
        i = i + 1;
    }
    None
}

fn value_end(data: &[u8], pos: usize) -> (r: std::result::Result<usize, BencodeError>)
    requires
        pos <= data.len(),
    ensures
        match end_at(data@, pos as int) {
            Ok(end) => r matches Ok(n) && n == end && pos < end <= usize::MAX,
            Err(e) => r matches Err(x) && x@ == e,
        },
    decreases data.len() - pos, 0int,
{
    proof {
        lemma_end_progress(data@, pos as int);
    }
    if pos == data.len() {
        return Err(BencodeError::EmptyPayload);
    }
    let b = data[pos];
    if b == LOWER_D {
        return pairs_end(data, pos + 1);
    }
    if b == LOWER_L {
        return list_end(data, pos + 1);
    }
    if b == LOWER_I {
        return match find_byte(data, pos, LOWER_E) {
            Some(e) => Ok(e + 1),
            None => Err(BencodeError::UnterminatedInt),
        };
    }
    if b < 0x30 || b > 0x39 {
        return Err(BencodeError::UnexpectedToken);
    }
    let colon = match find_byte(data, pos, COLON) {
        Some(colon) => colon,
        None => {
            return Err(BencodeError::MissingColon);
        },
    };
    let text = slice_subrange(data, pos, colon);
    assert(text@.skip(0) =~= text@);
    match parse_unsigned(text, 0, usize::MAX as u64) {
        None => Err(BencodeError::InvalidStringLength),
        Some(len) => {
            let len: usize = len as usize;
            if len > usize::MAX - (colon + 1) {
                Err(BencodeError::StringPastEnd)
            } else {
                Ok(colon + 1 + len)
            }
        },
    }
}

fn list_end(data: &[u8], from: usize) -> (r: std::result::Result<usize, BencodeError>)
    requires
        from <= data.len(),
    ensures
        match list_end_at(data@, from as int) {
            Ok(end) => r matches Ok(n) && n == end && from < end <= data.len(),
            Err(e) => r matches Err(x) && x@ == e,
        },
    decreases data.len() - from, 1int,
{
    let mut pos: usize = from;
    while pos < data.len() && data[pos] != LOWER_E
        invariant
            from <= pos <= data.len(),
            list_end_at(data@, from as int) == list_end_at(data@, pos as int),
        decreases data.len() - pos,
    {
        match value_end(data, pos) {
            Err(e) => {
                return Err(e);
            },
            Ok(next) => {
                if next > data.len() {
                    return Err(BencodeError::UnterminatedList);
                }
                pos = next;
            },
        }
    }
    if pos == data.len() {
        return Err(BencodeError::UnterminatedList);
    }
    Ok(pos + 1)
}

fn pairs_end(data: &[u8], from: usize) -> (r: std::result::Result<usize, BencodeError>)
    requires
        from <= data.len(),
    ensures
        match pairs_end_at(data@, from as int) {
            Ok(end) => r matches Ok(n) && n == end && from < end <= data.len(),
            Err(e) => r matches Err(x) && x@ == e,
        },
    decreases data.len() - from, 1int,
{
    let mut pos: usize = from;
    while pos < data.len() && data[pos] != LOWER_E
        invariant
            from <= pos <= data.len(),
            pairs_end_at(data@, from as int) == pairs_end_at(data@, pos as int),
        decreases data.len() - pos,
    {
        let value = match value_end(data, pos) {
            Err(e) => {
                return Err(e);
            },
            Ok(value) => value,
        };
        if value > data.len() {
            return Err(BencodeError::StringPastEnd);
        }
        match value_end(data, value) {
            Err(e) => {
                return Err(e);
            },
            Ok(next) => {
                if next > data.len() {
                    return Err(BencodeError::UnterminatedDict);
                }
                pos = next;
            },
        }
    }
    if pos == data.len() {
        return Err(BencodeError::UnterminatedDict);
    }
    Ok(pos + 1)
}

/// The byte length of the first complete bencoded value, if there is one.
pub open spec fn bencode_end(data: Seq<u8>) -> std::result::Result<int, BencodeError<Seq<char>>> {
    match end_at(data, 0) {
        Ok(end) => if end <= data.len() {
            Ok(end)
        } else {
            Err(BencodeError::StringPastEnd)
        },
        Err(e) => Err(e),
    }
}

/// Find the byte length of the first complete bencoded value in `data`.
pub fn find_bencode_end(data: &[u8]) -> (r: Result<usize>)
    ensures
        match bencode_end(data@) {
            Ok(end) => r matches Ok(n) && n == end && n <= data.len(),
            Err(e) => r matches Err(x) && x@ == Error::Bencode(e),
        },
{
    match value_end(data, 0) {
        Ok(end) => {
            if end <= data.len() {
                Ok(end)
            } else {
                Err(Error::Bencode(BencodeError::StringPastEnd))
            }
        },
        Err(e) => Err(Error::Bencode(e)),
    }
}

// Messages

/// The bytes of our extension handshake.
pub open spec fn ext_handshake_bytes() -> Seq<u8> {
    "d1:md11:ut_metadatai1ee4:reqqi500ee".spec_bytes()
}

/// The peer's id for ut_metadata and the size of its metadata, as its extension
/// handshake gives them; each is 0 if it is missing.
pub open spec fn ext_handshake_of(payload: Seq<u8>) -> std::result::Result<
    (u8, usize),
    BencodeError<Seq<char>>,
> {
    match value_at(payload, 0) {
        Err(e) => Err(e),
        Ok((t, _)) => Ok((ut_metadata_id(t) as u8, metadata_size(t) as usize)),
    }
}

pub open spec fn ut_metadata_id(t: Tree) -> i64 {
    match t.get("m".spec_bytes()) {
        Some(m) => match m.get_int("ut_metadata".spec_bytes()) {
            Some(id) => id,
            None => 0,
        },
        None => 0,
    }
}

pub open spec fn metadata_size(t: Tree) -> i64 {
    match t.get_int("metadata_size".spec_bytes()) {
        Some(n) => n,
        None => 0,
    }
}

/// The bytes that ask for a piece of metadata.
pub open spec fn metadata_request_bytes(piece: u32) -> Seq<u8> {
    "d8:msg_typei0e5:piecei".spec_bytes() + decimal(piece as nat) + "ee".spec_bytes()
}

/// How many pieces metadata of a size has.
pub open spec fn metadata_pieces(size: int) -> int {
    (size + METADATA_PIECE_SIZE - 1) / METADATA_PIECE_SIZE as int
}

/// The number and the bytes of the metadata piece that a message holds: a
/// dictionary that says which piece it is, and the bytes after it. There is
/// none if it is another kind of message or no such piece exists.
pub open spec fn metadata_piece_of(payload: Seq<u8>, total_size: int) -> std::result::Result<
    Option<(int, Seq<u8>)>,
    BencodeError<Seq<char>>,
> {
    match bencode_end(payload) {
        Err(e) => Err(e),
        Ok(end) => match value_at(payload.take(end), 0) {
            Err(e) => Err(e),
            Ok((t, _)) => match (
                t.get_int("msg_type".spec_bytes()),
                t.get_int("piece".spec_bytes()),
            ) {
                (Some(kind), Some(piece)) => if kind == 1 && 0 <= piece < metadata_pieces(
                    total_size,
                ) {
                    Ok(Some((piece as int, payload.skip(end))))
                } else {
                    Ok(None)
                },
                _ => Ok(None),
            },
        },
    }
}

/// Our extension handshake.
pub fn build_ext_handshake() -> (r: Vec<u8>)
    ensures
        r@ == ext_handshake_bytes(),
{
    let s = "d1:md11:ut_metadatai1ee4:reqqi500ee".as_bytes();
    let r = copy_range(s, 0, s.len());
    assert(r@ =~= s@);
    r
}

/// Read the peer's extension handshake.
pub fn parse_ext_handshake(payload: &[u8]) -> (r: Result<(u8, usize)>)
    ensures
        match ext_handshake_of(payload@) {
            Ok(x) => r matches Ok(y) && y == x,
            Err(e) => r matches Err(x) && x@ == Error::Bencode(e),
        },
{
    let val = match decode(payload) {
        Ok(val) => val,
        Err(e) => {
            return Err(e);
        },
    };
    let id: i64 = match val.get("m".as_bytes()) {
        Some(m) => match m.get_int("ut_metadata".as_bytes()) {
            Some(id) => id,
            None => 0,
        },
        None => 0,
    };
    let size: i64 = match val.get_int("metadata_size".as_bytes()) {
        Some(n) => n,
        None => 0,
    };
    Ok((id as u8, size as usize))
}

/// A message that asks for a piece of metadata.
pub fn build_metadata_request(piece: u32) -> (r: Vec<u8>)
    ensures
        r@ == metadata_request_bytes(piece),
{
    let mut r: Vec<u8> = Vec::new();
    append_bytes(&mut r, "d8:msg_typei0e5:piecei".as_bytes());
    append_decimal(&mut r, piece as u64);
    append_bytes(&mut r, "ee".as_bytes());
    assert(r@ =~= metadata_request_bytes(piece));
    r
}

/// Read a metadata piece out of a message.
pub fn parse_metadata_piece(payload: &[u8], total_size: usize) -> (r: Result<
    Option<(usize, Vec<u8>)>,
>)
    requires
        total_size + METADATA_PIECE_SIZE - 1 <= usize::MAX,
    ensures
        match metadata_piece_of(payload@, total_size as int) {
            Ok(Some((piece, data))) => r matches Ok(Some((i, d))) && i == piece && d@ == data,
            Ok(None) => r matches Ok(None),
            Err(e) => r matches Err(x) && x@ == Error::Bencode(e),
        },
        r matches Ok(Some((i, _))) ==> i < metadata_pieces(total_size as int),
{
    let end = match find_bencode_end(payload) {
        Ok(end) => end,
        Err(e) => {
            return Err(e);
        },
    };
    let dict = slice_subrange(payload, 0, end);
    assert(dict@ =~= payload@.take(end as int));
    let val = match decode(dict) {
        Ok(val) => val,
        Err(e) => {
            return Err(e);
        },
    };
    let kind = match val.get_int("msg_type".as_bytes()) {
        Some(kind) => kind,
        None => {
            return Ok(None);
        },
    };
    let piece = match val.get_int("piece".as_bytes()) {
        Some(piece) => piece,
        None => {
            return Ok(None);
        },
    };
    if kind != 1 || piece < 0 {
        return Ok(None);
    }
    let num_pieces: usize = (total_size + (METADATA_PIECE_SIZE - 1)) / METADATA_PIECE_SIZE;
    if piece as u64 >= num_pieces as u64 {
        return Ok(None);
    }
    let index: usize = piece as usize;
    let data = copy_range(payload, end, payload.len());
    assert(data@ =~= payload@.skip(end as int));
    Ok(Some((index, data)))
}

// Fetching

/// The exchange of metadata with one peer.
pub struct MetadataFetch {
    info_hash: InfoHash,
    /// The peer's id for ut_metadata, 0 until its extension handshake has arrived.
    ut_id: u8,
    size: usize,
    pieces: Vec<Option<Vec<u8>>>,
    /// How many pieces have arrived.
    received: usize,
    /// How many pieces have been asked for.
    requested: usize,
}

/// The content of a [`MetadataFetch`].
#[verifier::ext_equal]
pub struct Fetch {
    pub info_hash: Seq<u8>,
    pub ut_id: u8,
    pub size: usize,
    pub pieces: Seq<Option<Seq<u8>>>,
    pub requested: int,
}

/// What to do after a message.
pub enum FetchAction {
    /// Wait for the next message.
    Wait,
    /// Send the requests that [`MetadataFetch::next_request`] gives, then wait.
    Request,
    /// The metadata is complete and verified.
    Done(Metainfo),
}

/// What an extension message means to the exchange.
pub enum FetchStep {
    Wait(Fetch),
    Request(Fetch),
    Done(Torrent),
    Fail(Error<Seq<char>>),
}

pub open spec fn opt_bytes(p: Option<Vec<u8>>) -> Option<Seq<u8>> {
    match p {
        Some(v) => Some(v@),
        None => None,
    }
}

/// The bytes of the pieces that are there, one after the other.
pub open spec fn assembled(pieces: Seq<Option<Seq<u8>>>) -> Seq<u8>
    decreases pieces.len(),
{
    if pieces.len() == 0 {
        seq![]
    } else {
        assembled(pieces.drop_last()) + match pieces.last() {
            Some(p) => p,
            None => seq![],
        }
    }
}

/// The torrent that metadata with the given digest describes, if that is the
/// info hash.
pub open spec fn checked(info: Seq<u8>, digest: Seq<u8>, info_hash: Seq<u8>) -> std::result::Result<
    Torrent,
    Error<Seq<char>>,
> {
    if digest != info_hash {
        Err(Error::Peer(PeerError::MetadataMismatch))
    } else {
        match metainfo_of(wrapped(info)) {
            Ok(t) => Ok(Torrent { info_hash, ..t }),
            Err(e) => Err(e),
        }
    }
}

/// The torrent that metadata describes, if its SHA-1 digest is the info hash.
pub open spec fn verified(info: Seq<u8>, info_hash: Seq<u8>) -> std::result::Result<
    Torrent,
    Error<Seq<char>>,
> {
    checked(info, sha1(info), info_hash)
}

impl Fetch {
    /// Whether every piece has arrived.
    pub open spec fn complete(self) -> bool {
        forall|i: int| 0 <= i < self.pieces.len() ==> (#[trigger] self.pieces[i]) is Some
    }

    /// What comes of an extension message.
    pub open spec fn step(self, ext_id: u8, payload: Seq<u8>) -> FetchStep {
        if self.ut_id == 0 {
            if ext_id != 0 {
                FetchStep::Wait(self)
            } else {
                match ext_handshake_of(payload) {
                    Err(e) => FetchStep::Fail(Error::Bencode(e)),
                    Ok((ut_id, size)) => if ut_id == 0 {
                        FetchStep::Fail(Error::Peer(PeerError::NoUtMetadata))
                    } else if size == 0 {
                        FetchStep::Fail(Error::Peer(PeerError::EmptyMetadata))
                    } else if size + METADATA_PIECE_SIZE - 1 > usize::MAX {
                        FetchStep::Fail(Error::Peer(PeerError::MetadataTooLarge))
                    } else {
                        FetchStep::Request(
                            Fetch {
                                ut_id,
                                size,
                                pieces: Seq::new(
                                    metadata_pieces(size as int) as nat,
                                    |i: int| None,
                                ),
                                ..self
                            },
                        )
                    },
                }
            }
        } else if ext_id != UT_METADATA_EXT_ID {
            FetchStep::Wait(self)
        } else {
            match metadata_piece_of(payload, self.size as int) {
                Err(e) => FetchStep::Fail(Error::Bencode(e)),
                Ok(None) => FetchStep::Wait(self),
                Ok(Some((i, data))) => self.store(i, data),
            }
        }
    }

    /// What comes of a piece of metadata; of two copies the first one stands.
    pub open spec fn store(self, i: int, data: Seq<u8>) -> FetchStep {
        if self.pieces[i] is Some {
            FetchStep::Wait(self)
        } else {
            let next = Fetch { pieces: self.pieces.update(i, Some(data)), ..self };
            if !next.complete() {
                FetchStep::Wait(next)
            } else {
                match verified(assembled(next.pieces), self.info_hash) {
                    Ok(t) => FetchStep::Done(t),
                    Err(e) => FetchStep::Fail(e),
                }
            }
        }
    }
}

/// How many pieces are there.
spec fn present(pieces: Seq<Option<Seq<u8>>>) -> nat
    decreases pieces.len(),
{
    if pieces.len() == 0 {
        0
    } else {
        present(pieces.drop_last()) + if pieces.last() is Some {
            1nat
        } else {
            0nat
        }
    }
}

proof fn lemma_present(pieces: Seq<Option<Seq<u8>>>)
    ensures
        present(pieces) <= pieces.len(),
        present(pieces) == pieces.len() <==> forall|i: int|
            0 <= i < pieces.len() ==> (#[trigger] pieces[i]) is Some,
        (forall|i: int| 0 <= i < pieces.len() ==> (#[trigger] pieces[i]) is None) ==> present(pieces)
            == 0,
    decreases pieces.len(),
{
    if pieces.len() > 0 {
        let head = pieces.drop_last();
        lemma_present(head);
        assert(forall|i: int| 0 <= i < head.len() ==> head[i] == pieces[i]);
        assert(pieces[pieces.len() - 1] == pieces.last());
    }
}

proof fn lemma_present_update(pieces: Seq<Option<Seq<u8>>>, i: int, data: Seq<u8>)
    requires
        0 <= i < pieces.len(),
        pieces[i] is None,
    ensures
        present(pieces.update(i, Some(data))) == present(pieces) + 1,
    decreases pieces.len(),
{
    let new = pieces.update(i, Some(data));
    if i < pieces.len() - 1 {
        lemma_present_update(pieces.drop_last(), i, data);
        assert(new.drop_last() =~= pieces.drop_last().update(i, Some(data)));
    } else {
        assert(new.drop_last() =~= pieces.drop_last());
    }
}

impl View for MetadataFetch {
    type V = Fetch;

    closed spec fn view(&self) -> Fetch {
        Fetch {
            info_hash: self.info_hash.0@,
            ut_id: self.ut_id,
            size: self.size,
            pieces: self.pieces@.map_values(|p: Option<Vec<u8>>| opt_bytes(p)),
            requested: self.requested as int,
        }
    }
}

impl MetadataFetch {
    #[verifier::type_invariant]
    spec fn well_formed(self) -> bool {
        &&& self.received == present(self@.pieces)
        &&& self.requested <= self.pieces@.len()
        &&& self.size + METADATA_PIECE_SIZE - 1 <= usize::MAX
        &&& self.ut_id == 0 ==> self.pieces@.len() == 0
        &&& self.ut_id != 0 ==> self.pieces@.len() == metadata_pieces(self.size as int)
    }

    /// Begin the exchange with a peer that has shaken hands, if it supports extensions.
    pub fn start(info_hash: InfoHash, capabilities: PeerCapabilities) -> (r: Result<MetadataFetch>)
        ensures
            match r {
                Ok(f) => capabilities.extension_protocol && f@ == (Fetch {
                    info_hash: info_hash.0@,
                    ut_id: 0,
                    size: 0,
                    pieces: seq![],
                    requested: 0,
                }),
                Err(e) => !capabilities.extension_protocol
                    && e matches Error::Peer(PeerError::NoExtensionProtocol),
            },
    {
        if !capabilities.extension_protocol {
            return Err(Error::Peer(PeerError::NoExtensionProtocol));
        }
        let pieces: Vec<Option<Vec<u8>>> = Vec::new();
        assert(pieces@.map_values(|p: Option<Vec<u8>>| opt_bytes(p)) =~= seq![]);
        Ok(MetadataFetch { info_hash, ut_id: 0, size: 0, pieces, received: 0, requested: 0 })
    }

    /// The next request to send: the peer's id for ut_metadata and the payload.
    pub fn next_request(&mut self) -> (r: Option<(u8, Vec<u8>)>)
        ensures
            if old(self)@.requested < old(self)@.pieces.len() {
                &&& r matches Some((id, payload)) && id == old(self)@.ut_id && payload@
                    == metadata_request_bytes(old(self)@.requested as u32)
                &&& final(self)@ == (Fetch {
                    requested: old(self)@.requested + 1,
                    ..old(self)@
                })
            } else {
                r is None && final(self)@ == old(self)@
            },
    {
        proof {
            use_type_invariant(&*self);
        }
        if self.requested < self.pieces.len() {
            let payload = build_metadata_request(self.requested as u32);
            self.requested = self.requested + 1;
            Some((self.ut_id, payload))
        } else {
            None
        }
    }

    /// Take in an extension message.
    pub fn on_extension(&mut self, ext_id: u8, payload: &[u8]) -> (r: Result<FetchAction>)
        ensures
            match old(self)@.step(ext_id, payload@) {
                FetchStep::Wait(next) => r matches Ok(FetchAction::Wait) && final(self)@ == next,
                FetchStep::Request(next) => r matches Ok(FetchAction::Request) && final(self)@ == next,
                FetchStep::Done(t) => r matches Ok(FetchAction::Done(m)) && m@ == t,
                FetchStep::Fail(e) => r matches Err(x) && x@ == e,
            },
    {
        proof {
            use_type_invariant(&*self);
        }
        if self.ut_id == 0 {
            if ext_id != 0 {
                return Ok(FetchAction::Wait);
            }
            let (ut_id, size) = match parse_ext_handshake(payload) {
                Ok(x) => x,
                Err(e) => {
                    return Err(e);
                },
            };
            if ut_id == 0 {
                return Err(Error::Peer(PeerError::NoUtMetadata));
            }
            if size == 0 {
                return Err(Error::Peer(PeerError::EmptyMetadata));
            }
            if size > usize::MAX - (METADATA_PIECE_SIZE - 1) {
                return Err(Error::Peer(PeerError::MetadataTooLarge));
            }
            let next = self.after_handshake(ut_id, size);
            *self = next;
            return Ok(FetchAction::Request);
        }
        if ext_id != UT_METADATA_EXT_ID {
            return Ok(FetchAction::Wait);
        }
        match parse_metadata_piece(payload, self.size) {
            Err(e) => Err(e),
            Ok(None) => Ok(FetchAction::Wait),
            Ok(Some((i, data))) => self.store(i, data),
        }
    }

    fn after_handshake(&self, ut_id: u8, size: usize) -> (next: MetadataFetch)
        requires
            self@.ut_id == 0,
            ut_id != 0,
            size + METADATA_PIECE_SIZE - 1 <= usize::MAX,
        ensures
            next@ == (Fetch {
                ut_id,
                size,
                pieces: Seq::new(metadata_pieces(size as int) as nat, |i: int| None),
                ..self@
            }),
    {
        proof {
            use_type_invariant(self);
        }
        let num_pieces: usize = (size + (METADATA_PIECE_SIZE - 1)) / METADATA_PIECE_SIZE;
        let mut pieces: Vec<Option<Vec<u8>>> = Vec::new();
        while pieces.len() < num_pieces
            invariant
                pieces@.len() <= num_pieces,
                forall|i: int| 0 <= i < pieces@.len() ==> (#[trigger] pieces@[i]) is None,
            decreases num_pieces - pieces@.len(),
        {
            pieces.push(None);
        }
        let ghost contents = pieces@.map_values(|p: Option<Vec<u8>>| opt_bytes(p));
        proof {
            lemma_present(contents);
            assert(contents =~= Seq::new(metadata_pieces(size as int) as nat, |i: int| None));
        }
        MetadataFetch {
            info_hash: self.info_hash,
            ut_id,
            size,
            pieces,
            received: 0,
            requested: self.requested,
        }
    }

    fn store(&mut self, i: usize, data: Vec<u8>) -> (r: Result<FetchAction>)
        requires
            i < old(self)@.pieces.len(),
        ensures
            match old(self)@.store(i as int, data@) {
                FetchStep::Wait(next) => r matches Ok(FetchAction::Wait) && final(self)@ == next,
                FetchStep::Request(next) => r matches Ok(FetchAction::Request) && final(self)@ == next,
                FetchStep::Done(t) => r matches Ok(FetchAction::Done(m)) && m@ == t,
                FetchStep::Fail(e) => r matches Err(x) && x@ == e,
            },
    {
        proof {
            use_type_invariant(&*self);
        }
        assert(self@.pieces[i as int] == opt_bytes(self.pieces@[i as int]));
        if self.pieces[i].is_some() {
            return Ok(FetchAction::Wait);
        }
        let ghost before = self@.pieces;
        let ghost bytes = data@;
        let ghost after = before.update(i as int, Some(bytes));
        let mut next = MetadataFetch {
            info_hash: self.info_hash,
            ut_id: 0,
            size: self.size,
            pieces: Vec::new(),
            received: 0,
            requested: 0,
        };
        std::mem::swap(&mut next, self);
        let MetadataFetch { info_hash, ut_id, size, pieces, received, requested } = next;
        let mut pieces = pieces;
        pieces[i] = Some(data);
        proof {
            lemma_present_update(before, i as int, bytes);
            lemma_present(after);
            assert(pieces@.map_values(|p: Option<Vec<u8>>| opt_bytes(p)) =~= after);
        }
        *self = MetadataFetch { info_hash, ut_id, size, pieces, received: received + 1, requested };
        if self.received < self.pieces.len() {
            return Ok(FetchAction::Wait);
        }
        let full = assemble(&self.pieces);
        match verify_metadata(full.as_slice(), &info_hash) {
            Ok(m) => Ok(FetchAction::Done(m)),
            Err(e) => Err(e),
        }
    }
}

/// Put the pieces that are there together.
fn assemble(pieces: &Vec<Option<Vec<u8>>>) -> (full: Vec<u8>)
    ensures
        full@ == assembled(pieces@.map_values(|p: Option<Vec<u8>>| opt_bytes(p))),
{
    let ghost all = pieces@.map_values(|p: Option<Vec<u8>>| opt_bytes(p));
    let mut full: Vec<u8> = Vec::new();
    let mut i: usize = 0;
    assert(all.take(0) =~= seq![]);
    while i < pieces.len()
        invariant
            i <= pieces.len(),
            all == pieces@.map_values(|p: Option<Vec<u8>>| opt_bytes(p)),
            full@ == assembled(all.take(i as int)),
        decreases pieces.len() - i,
    {
        assert(all.take(i + 1).drop_last() =~= all.take(i as int));
        assert(all.take(i + 1).last() == opt_bytes(pieces@[i as int]));
        if let Some(p) = &pieces[i] {
            append_bytes(&mut full, p.as_slice());
        }
        assert(full@ =~= assembled(all.take(i + 1)));
        i = i + 1;
    }
    assert(all.take(i as int) =~= all);
    full
}

/// Read metadata whose digest is known, if that is the info hash.
pub fn check_metadata(info: &[u8], digest: &[u8; 20], info_hash: &InfoHash) -> (r: Result<
    Metainfo,
>)
    ensures
        match checked(info@, digest@, info_hash.0@) {
            Ok(t) => r matches Ok(m) && m@ == t,
            Err(e) => r matches Err(x) && x@ == e,
        },
{
    if !same_bytes(digest.as_slice(), info_hash.0.as_slice()) {
        return Err(Error::Peer(PeerError::MetadataMismatch));
    }
    Metainfo::from_info_bytes(info, info_hash)
}

/// Check metadata against the info hash and read it.
pub fn verify_metadata(info: &[u8], info_hash: &InfoHash) -> (r: Result<Metainfo>)
    ensures
        match verified(info@, info_hash.0@) {
            Ok(t) => r matches Ok(m) && m@ == t,
            Err(e) => r matches Err(x) && x@ == e,
        },
{
    check_metadata(info, &sha1_digest(info), info_hash)
}

// Laws

/// The end of an encoded value is found behind its last byte, whatever follows.
pub proof fn lemma_end_of_encoding(t: Tree, rest: Seq<u8>)
    requires
        finite(t),
        encode(t).len() <= isize::MAX,
    ensures
        bencode_end(encode(t) + rest) == Ok::<int, BencodeError<Seq<char>>>(encode(t).len() as int),
{
    let data = encode(t) + rest;
    assert(data.subrange(0, encode(t).len() as int) =~= encode(t));
    lemma_end_at(data, 0, t);
}

proof fn lemma_string_end_at(data: Seq<u8>, pos: int, b: Seq<u8>)
    requires
        stands_at(data, pos, encode_bytes(b)),
        pos + encode_bytes(b).len() <= usize::MAX,
    ensures
        end_at(data, pos) == Ok::<int, BencodeError<Seq<char>>>(pos + encode_bytes(b).len()),
        is_digit(data[pos]),
{
    let digits = decimal(b.len());
    lemma_decimal(b.len());
    lemma_stands_parts(data, pos, digits + seq![COLON], b);
    lemma_stands_parts(data, pos, digits, seq![COLON]);
    lemma_stands_byte(data, pos + digits.len(), COLON);
    assert forall|j: int| pos <= j < pos + digits.len() implies data[j] != COLON by {
        assert(data.subrange(pos, pos + digits.len())[j - pos] == digits[j - pos]);
        assert(is_digit(digits[j - pos]));
    }
    lemma_find_from_is(data, pos, COLON, pos + digits.len());
    assert(data.subrange(pos, pos + digits.len())[0] == data[pos]);
    assert(is_digit(digits[0]));
}

proof fn lemma_end_at(data: Seq<u8>, pos: int, t: Tree)
    requires
        stands_at(data, pos, encode(t)),
        finite(t),
        pos + encode(t).len() <= usize::MAX,
    ensures
        end_at(data, pos) == Ok::<int, BencodeError<Seq<char>>>(pos + encode(t).len()),
    decreases t, 0nat, 0int,
{
    lemma_encode_first(t);
    match t {
        Tree::Bytes(b) => {
            lemma_string_end_at(data, pos, b);
        },
        Tree::Int(n) => {
            let text = signed_decimal(n as int);
            let body = text + seq![LOWER_E];
            assert(encode(t) =~= seq![LOWER_I] + body);
            lemma_stands_parts(data, pos, seq![LOWER_I], body);
            lemma_stands_byte(data, pos, LOWER_I);
            lemma_stands_parts(data, pos + 1, text, seq![LOWER_E]);
            lemma_stands_byte(data, pos + 1 + text.len(), LOWER_E);
            lemma_i64_of_signed_decimal(n);
            assert forall|j: int| pos <= j < pos + 1 + text.len() implies data[j] != LOWER_E by {
                if j > pos {
                    assert(data.subrange(pos + 1, pos + 1 + text.len())[j - pos - 1] == text[j - pos
                        - 1]);
                    assert(is_digit(text[j - pos - 1]) || text[j - pos - 1] == MINUS);
                }
            }
            lemma_find_from_is(data, pos, LOWER_E, pos + 1 + text.len());
        },
        Tree::List(l) => {
            let body = encode_items(l) + seq![LOWER_E];
            assert(encode(t) =~= seq![LOWER_L] + body);
            lemma_stands_parts(data, pos, seq![LOWER_L], body);
            lemma_stands_byte(data, pos, LOWER_L);
            lemma_list_end_at(data, pos + 1, l, 0);
            assert(l.take(0) =~= seq![]);
        },
        Tree::Dict(m) => {
            let keys = sorted_keys(m);
            lemma_sorted_keys(m);
            let body = encode_entries(m, keys) + seq![LOWER_E];
            assert(encode(t) =~= seq![LOWER_D] + body);
            lemma_stands_parts(data, pos, seq![LOWER_D], body);
            lemma_stands_byte(data, pos, LOWER_D);
            lemma_pairs_end_at(data, pos + 1, m, keys, 0);
        },
    }
}

proof fn lemma_list_end_at(data: Seq<u8>, pos: int, l: Seq<Tree>, i: int)
    requires
        stands_at(data, pos, encode_items(l) + seq![LOWER_E]),
        forall|j: int| 0 <= j < l.len() ==> finite(#[trigger] l[j]),
        pos + encode_items(l).len() < usize::MAX,
        0 <= i <= l.len(),
    ensures
        list_end_at(data, pos + encode_items(l.take(i)).len()) == Ok::<int, BencodeError<Seq<char>>>(
            pos + encode_items(l).len() + 1,
        ),
    decreases l, 1nat, l.len() - i,
{
    lemma_stands_parts(data, pos, encode_items(l), seq![LOWER_E]);
    let here = pos + encode_items(l.take(i)).len();
    if i == l.len() {
        assert(l.take(i) =~= l);
        lemma_stands_byte(data, here, LOWER_E);
    } else {
        let rest = lemma_encode_items_prefix(l, i + 1);
        lemma_encode_items_take(l, i);
        lemma_stands_parts(data, pos, encode_items(l.take(i + 1)), rest);
        lemma_stands_parts(data, pos, encode_items(l.take(i)), encode(l[i]));
        lemma_end_at(data, here, l[i]);
        lemma_list_end_at(data, pos, l, i + 1);
        lemma_encode_first(l[i]);
        assert(data.subrange(here, here + encode(l[i]).len())[0] == data[here]);
    }
}

proof fn lemma_pairs_end_at(
    data: Seq<u8>,
    pos: int,
    m: Map<Seq<u8>, Tree>,
    keys: Seq<Seq<u8>>,
    i: int,
)
    requires
        stands_at(data, pos, encode_entries(m, keys) + seq![LOWER_E]),
        m.dom().finite(),
        keys.to_set() == m.dom(),
        forall|k: Seq<u8>| #[trigger] m.contains_key(k) ==> finite(m[k]),
        pos + encode_entries(m, keys).len() < usize::MAX,
        0 <= i <= keys.len(),
    ensures
        pairs_end_at(data, pos + encode_entries(m, keys.take(i)).len()) == Ok::<int, BencodeError<Seq<char>>>(
            pos + encode_entries(m, keys).len() + 1,
        ),
    decreases m, 1nat, keys.len() - i,
{
    lemma_stands_parts(data, pos, encode_entries(m, keys), seq![LOWER_E]);
    assert forall|j: int| 0 <= j < keys.len() implies m.contains_key(#[trigger] keys[j]) by {
        assert(keys.to_set().contains(keys[j]));
    }
    let here = pos + encode_entries(m, keys.take(i)).len();
    if i == keys.len() {
        assert(keys.take(i) =~= keys);
        lemma_stands_byte(data, here, LOWER_E);
    } else {
        let rest = lemma_encode_entries_prefix(m, keys, i + 1);
        lemma_encode_entries_take(m, keys, i);
        let key = encode_bytes(keys[i]);
        let value = encode(m[keys[i]]);
        lemma_stands_parts(data, pos, encode_entries(m, keys.take(i + 1)), rest);
        lemma_stands_parts(data, pos, encode_entries(m, keys.take(i)) + key, value);
        lemma_stands_parts(data, pos, encode_entries(m, keys.take(i)), key);
        lemma_string_end_at(data, here, keys[i]);
        lemma_end_at(data, here + key.len(), m[keys[i]]);
        lemma_pairs_end_at(data, pos, m, keys, i + 1);
        lemma_encode_first(m[keys[i]]);
        let next = here + key.len() + value.len();
        assert(next == pos + encode_entries(m, keys.take(i + 1)).len());
        assert(data[here] != LOWER_E);
    }
}

/// A message that says which piece of metadata it holds gives that piece and
/// the bytes after the dictionary.
pub proof fn lemma_metadata_message(t: Tree, raw: Seq<u8>, piece: i64, total_size: int)
    requires
        finite(t),
        encode(t).len() <= isize::MAX,
        t.get_int("msg_type".spec_bytes()) == Some(1i64),
        t.get_int("piece".spec_bytes()) == Some(piece),
        0 <= piece < metadata_pieces(total_size),
    ensures
        metadata_piece_of(encode(t) + raw, total_size) == Ok::<
            Option<(int, Seq<u8>)>,
            BencodeError<Seq<char>>,
        >(Some((piece as int, raw))),
{
    let payload = encode(t) + raw;
    lemma_end_of_encoding(t, raw);
    assert(payload.take(encode(t).len() as int) =~= encode(t) + seq![]);
    lemma_lengths_fit(t);
    lemma_decode_encode(t, seq![]);
    assert(payload.skip(encode(t).len() as int) =~= raw);
}

proof fn lemma_keys()
    ensures
        "m".spec_bytes() == seq![0x6du8],
        "reqq".spec_bytes() == seq![0x72u8, 0x65, 0x71, 0x71],
        "piece".spec_bytes() == seq![0x70u8, 0x69, 0x65, 0x63, 0x65],
        "msg_type".spec_bytes() == seq![0x6du8, 0x73, 0x67, 0x5f, 0x74, 0x79, 0x70, 0x65],
        "ut_metadata".spec_bytes() == seq![
            0x75u8,
            0x74,
            0x5f,
            0x6d,
            0x65,
            0x74,
            0x61,
            0x64,
            0x61,
            0x74,
            0x61,
        ],
        "metadata_size".spec_bytes().len() == 13,
        "ee".spec_bytes() == seq![0x65u8, 0x65],
{
    reveal_strlit("m");
    reveal_strlit("reqq");
    reveal_strlit("piece");
    reveal_strlit("msg_type");
    reveal_strlit("ut_metadata");
    reveal_strlit("metadata_size");
    reveal_strlit("ee");
    is_ascii_chars_encode_utf8("m"@);
    is_ascii_chars_encode_utf8("reqq"@);
    is_ascii_chars_encode_utf8("piece"@);
    is_ascii_chars_encode_utf8("msg_type"@);
    is_ascii_chars_encode_utf8("ut_metadata"@);
    is_ascii_chars_encode_utf8("metadata_size"@);
    is_ascii_chars_encode_utf8("ee"@);
    assert("m".spec_bytes() =~= seq![0x6du8]);
    assert("reqq".spec_bytes() =~= seq![0x72u8, 0x65, 0x71, 0x71]);
    assert("piece".spec_bytes() =~= seq![0x70u8, 0x69, 0x65, 0x63, 0x65]);
    assert("msg_type".spec_bytes() =~= seq![0x6du8, 0x73, 0x67, 0x5f, 0x74, 0x79, 0x70, 0x65]);
    assert("ut_metadata".spec_bytes() =~= seq![
        0x75u8,
        0x74,
        0x5f,
        0x6d,
        0x65,
        0x74,
        0x61,
        0x64,
        0x61,
        0x74,
        0x61,
    ]);
    assert("ee".spec_bytes() =~= seq![0x65u8, 0x65]);
}

/// What our extension handshake says.
pub open spec fn our_extensions() -> Tree {
    Tree::Dict(
        map![
            "m".spec_bytes() => Tree::Dict(map!["ut_metadata".spec_bytes() => Tree::Int(1)]),
            "reqq".spec_bytes() => Tree::Int(500),
        ],
    )
}

/// The bytes of what we say about ut_metadata.
proof fn lemma_our_inner()
    ensures
        encode(Tree::Dict(map!["ut_metadata".spec_bytes() => Tree::Int(1)])) == seq![
            LOWER_D,
            0x31u8,
            0x31,
            COLON,
        ] + "ut_metadata".spec_bytes() + seq![LOWER_I, 0x31u8, LOWER_E, LOWER_E],
{
    lemma_keys();
    let ut = "ut_metadata".spec_bytes();
    lemma_encode_one(ut, Tree::Int(1));
    assert(decimal(1) =~= seq![0x31u8]);
    assert(decimal(11) =~= seq![0x31u8, 0x31]);
    assert(encode(Tree::Dict(map![ut => Tree::Int(1)])) =~= seq![LOWER_D, 0x31u8, 0x31, COLON] + ut
        + seq![LOWER_I, 0x31u8, LOWER_E, LOWER_E]);
}

/// The bytes of what we say.
#[verifier::spinoff_prover]
proof fn lemma_our_encoding()
    ensures
        ext_handshake_bytes() == encode(our_extensions()),
{
    lemma_keys();
    lemma_our_inner();
    let m = "m".spec_bytes();
    let ut = "ut_metadata".spec_bytes();
    let reqq = "reqq".spec_bytes();
    let inner = Tree::Dict(map![ut => Tree::Int(1)]);
    assert(differs_at(m, reqq, 0));
    lemma_encode_two(m, inner, reqq, Tree::Int(500));
    assert(decimal(1) =~= seq![0x31u8]);
    assert(decimal(4) =~= seq![0x34u8]);
    assert(decimal(5) =~= seq![0x35u8]);
    assert(decimal(50) =~= seq![0x35u8, 0x30]);
    assert(decimal(500) =~= seq![0x35u8, 0x30, 0x30]);
    reveal_strlit("d1:md11:ut_metadatai1ee4:reqqi500ee");
    is_ascii_chars_encode_utf8("d1:md11:ut_metadatai1ee4:reqqi500ee"@);
    assert(ext_handshake_bytes() =~= encode(our_extensions()));
}

/// Our extension handshake is the encoding of what it says: that we know
/// ut_metadata by the id under which its messages are then sent to us.
#[verifier::spinoff_prover]
pub proof fn lemma_our_handshake()
    ensures
        ext_handshake_bytes() == encode(our_extensions()),
        ext_handshake_of(ext_handshake_bytes()) == Ok::<(u8, usize), BencodeError<Seq<char>>>(
            (UT_METADATA_EXT_ID, 0usize),
        ),
{
    lemma_our_encoding();
    lemma_keys();
    let m = "m".spec_bytes();
    let reqq = "reqq".spec_bytes();
    let inner = Tree::Dict(map!["ut_metadata".spec_bytes() => Tree::Int(1)]);
    let t = our_extensions();
    assert(ext_handshake_bytes().len() <= isize::MAX) by {
        reveal_strlit("d1:md11:ut_metadatai1ee4:reqqi500ee");
        is_ascii_chars_encode_utf8("d1:md11:ut_metadatai1ee4:reqqi500ee"@);
    }
    assert(finite(Tree::Int(1)) && finite(Tree::Int(500)));
    assert(finite(inner));
    assert(m[0] != reqq[0]);
    assert(finite(t));
    lemma_lengths_fit(t);
    lemma_decode_encode(t, seq![]);
    assert(encode(t) + seq![] =~= encode(t));
    assert(t.get(m) == Some(inner));
}

/// A request is the encoding of a dictionary with its type and the piece.
pub proof fn lemma_request_is_encoding(piece: u32)
    ensures
        metadata_request_bytes(piece) == encode(
            Tree::Dict(
                map![
                    "msg_type".spec_bytes() => Tree::Int(0),
                    "piece".spec_bytes() => Tree::Int(piece as i64),
                ],
            ),
        ),
{
    lemma_keys();
    let msg_type = "msg_type".spec_bytes();
    let key = "piece".spec_bytes();
    assert(differs_at(msg_type, key, 0));
    lemma_encode_two(msg_type, Tree::Int(0), key, Tree::Int(piece as i64));
    assert(decimal(0) =~= seq![0x30u8]);
    assert(decimal(5) =~= seq![0x35u8]);
    assert(decimal(8) =~= seq![0x38u8]);
    reveal_strlit("d8:msg_typei0e5:piecei");
    is_ascii_chars_encode_utf8("d8:msg_typei0e5:piecei"@);
    assert(metadata_request_bytes(piece) =~= encode(
        Tree::Dict(map![msg_type => Tree::Int(0), key => Tree::Int(piece as i64)]),
    ));
}

/// Metadata cut into pieces of the agreed size.
pub open spec fn cut(info: Seq<u8>) -> Seq<Option<Seq<u8>>> {
    Seq::new(
        metadata_pieces(info.len() as int) as nat,
        |i: int|
            Some(
                info.subrange(
                    i * METADATA_PIECE_SIZE,
                    if (i + 1) * METADATA_PIECE_SIZE <= info.len() {
                        (i + 1) * METADATA_PIECE_SIZE
                    } else {
                        info.len() as int
                    },
                ),
            ),
    )
}

proof fn lemma_assembled_prefix(info: Seq<u8>, n: int)
    requires
        0 <= n <= cut(info).len(),
    ensures
        assembled(cut(info).take(n)) == info.take(
            if n * METADATA_PIECE_SIZE <= info.len() {
                n * METADATA_PIECE_SIZE
            } else {
                info.len() as int
            },
        ),
    decreases n,
{
    let pieces = cut(info);
    if n == 0 {
        assert(pieces.take(0) =~= seq![]);
        assert(info.take(0) =~= seq![]);
    } else {
        lemma_assembled_prefix(info, n - 1);
        assert(pieces.take(n).drop_last() =~= pieces.take(n - 1));
        let end = if n * METADATA_PIECE_SIZE <= info.len() {
            n * METADATA_PIECE_SIZE
        } else {
            info.len() as int
        };
        assert(pieces.take(n).last() == pieces[n - 1]);
        assert(pieces[n - 1] == Some(info.subrange((n - 1) * METADATA_PIECE_SIZE, end)));
        assert(info.take((n - 1) * METADATA_PIECE_SIZE) + info.subrange(
            (n - 1) * METADATA_PIECE_SIZE,
            end,
        ) =~= info.take(end));
    }
}

/// The pieces of metadata, put together, are the metadata.
pub proof fn lemma_assembled_cut(info: Seq<u8>)
    ensures
        assembled(cut(info)) == info,
{
    let n = cut(info).len() as int;
    lemma_assembled_prefix(info, n);
    assert(cut(info).take(n) =~= cut(info));
    assert(info.take(info.len() as int) =~= info);
}

/// Whether the pieces that have arrived are those of the metadata.
pub open spec fn fetches(f: Fetch, info: Seq<u8>) -> bool {
    &&& f.pieces.len() == cut(info).len()
    &&& forall|i: int|
        0 <= i < f.pieces.len() && (#[trigger] f.pieces[i]) is Some ==> f.pieces[i] == cut(info)[i]
}

/// Every piece of the metadata that a peer sends brings the fetch closer to its
/// end, and the last one gives the torrent that the metadata describes.
pub proof fn lemma_fetch_completes(f: Fetch, info: Seq<u8>, i: int)
    requires
        fetches(f, info),
        0 <= i < f.pieces.len(),
        sha1(info) == f.info_hash,
    ensures
        match f.store(i, cut(info)[i].unwrap()) {
            FetchStep::Wait(next) => fetches(next, info) && next.pieces[i] is Some,
            FetchStep::Done(t) => verified(info, f.info_hash) == Ok::<Torrent, Error<Seq<char>>>(t),
            FetchStep::Fail(e) => verified(info, f.info_hash) == Err::<Torrent, Error<Seq<char>>>(e),
            FetchStep::Request(_) => false,
        },
        f.pieces[i] is None && (forall|k: int|
            0 <= k < f.pieces.len() && k != i ==> (#[trigger] f.pieces[k]) is Some) ==> !(f.store(
            i,
            cut(info)[i].unwrap(),
        ) is Wait),
{
    let next = f.pieces.update(i, Some(cut(info)[i].unwrap()));
    assert(cut(info)[i] is Some);
    if f.pieces[i] is None {
        if forall|k: int| 0 <= k < next.len() ==> (#[trigger] next[k]) is Some {
            assert forall|k: int| 0 <= k < next.len() implies next[k] == cut(info)[k] by {
                if k != i {
                    assert(f.pieces[k] == next[k]);
                }
            }
            assert(next =~= cut(info));
            lemma_assembled_cut(info);
        }
    }
}

/// What a fetch ends with is a torrent of the info hash it was begun with.
pub proof fn lemma_fetched_is_asked_for(f: Fetch, ext_id: u8, payload: Seq<u8>)
    ensures
        f.step(ext_id, payload) matches FetchStep::Done(t) ==> t.info_hash == f.info_hash && exists|
            info: Seq<u8>,
        |
            sha1(info) == f.info_hash && #[trigger] verified(info, f.info_hash) == Ok::<
                Torrent,
                Error<Seq<char>>,
            >(t),
{
    if let FetchStep::Done(t) = f.step(ext_id, payload) {
        let (i, data) = metadata_piece_of(payload, f.size as int)->Ok_0.unwrap();
        let info = assembled(f.pieces.update(i, Some(data)));
        assert(verified(info, f.info_hash) == Ok::<Torrent, Error<Seq<char>>>(t));
    }
}

/// Whether a dictionary is an extension handshake that names an id for
/// ut_metadata.
pub open spec fn names_id(t: Tree, id: u8) -> bool {
    &&& t.get("m".spec_bytes()) matches Some(Tree::Dict(m)) && m.contains_key(
        "ut_metadata".spec_bytes(),
    ) && m["ut_metadata".spec_bytes()] == Tree::Int(id as i64)
}

/// A peer's handshake begins the exchange: its id and the size of its metadata
/// are kept, as many pieces as that takes are to be asked for, and none is
/// there yet. Without an id or a size there is nothing to fetch.
pub proof fn lemma_exchange_begins(f: Fetch, t: Tree, rest: Seq<u8>, id: u8, size: u32)
    requires
        finite(t),
        encode(t).len() <= isize::MAX,
        f.ut_id == 0,
        names_id(t, id),
        t.get("metadata_size".spec_bytes()) == Some(Tree::Int(size as i64)),
        size + 16384 <= u32::MAX,
    ensures
        ext_handshake_of(encode(t) + rest) == Ok::<(u8, usize), BencodeError<Seq<char>>>(
            (id, size as usize),
        ),
        id == 0 ==> f.step(0, encode(t) + rest) == FetchStep::Fail(
            Error::Peer(PeerError::NoUtMetadata),
        ),
        id != 0 && size == 0 ==> f.step(0, encode(t) + rest) == FetchStep::Fail(
            Error::Peer(PeerError::EmptyMetadata),
        ),
        id != 0 && size > 0 ==> (f.step(0, encode(t) + rest) matches FetchStep::Request(next) && {
            &&& next.info_hash == f.info_hash
            &&& next.requested == f.requested
            &&& next.ut_id == id
            &&& next.size == size
            &&& 16384 * (next.pieces.len() - 1) < size <= 16384 * next.pieces.len()
            &&& forall|i: int| 0 <= i < next.pieces.len() ==> (#[trigger] next.pieces[i]) is None
        }),
{
    lemma_lengths_fit(t);
    lemma_decode_encode(t, rest);
}

/// A handshake that names no id for ut_metadata, or no size, ends the exchange.
pub proof fn lemma_nothing_to_fetch(f: Fetch, t: Tree, rest: Seq<u8>, id: u8)
    requires
        finite(t),
        encode(t).len() <= isize::MAX,
        f.ut_id == 0,
    ensures
        t.get("m".spec_bytes()) is None ==> f.step(0, encode(t) + rest) == FetchStep::Fail(
            Error::Peer(PeerError::NoUtMetadata),
        ),
        id != 0 && names_id(t, id) && t.get("metadata_size".spec_bytes()) is None ==> f.step(
            0,
            encode(t) + rest,
        ) == FetchStep::Fail(Error::Peer(PeerError::EmptyMetadata)),
{
    lemma_lengths_fit(t);
    lemma_decode_encode(t, rest);
}

/// Messages of other extensions change nothing, at any time: before the
/// handshake everything but the handshake, and after it everything that is not
/// sent under the id that we gave ut_metadata.
pub proof fn lemma_other_extensions(f: Fetch, ext_id: u8, payload: Seq<u8>)
    requires
        f.ut_id == 0 && ext_id != 0 || f.ut_id != 0 && ext_id != 1,
    ensures
        f.step(ext_id, payload) == FetchStep::Wait(f),
{
}

/// A message with a piece of the metadata adds that piece, and leaves the
/// others and all else as they are; a second copy changes nothing.
pub proof fn lemma_piece_arrives(f: Fetch, t: Tree, raw: Seq<u8>, piece: i64)
    requires
        finite(t),
        encode(t).len() <= isize::MAX,
        t.get_int("msg_type".spec_bytes()) == Some(1i64),
        t.get_int("piece".spec_bytes()) == Some(piece),
        f.ut_id != 0,
        f.pieces.len() == metadata_pieces(f.size as int),
        0 <= piece < f.pieces.len(),
    ensures
        f.pieces[piece as int] is Some ==> f.step(1, encode(t) + raw) == FetchStep::Wait(f),
        f.step(1, encode(t) + raw) matches FetchStep::Wait(next) ==> {
            &&& next.info_hash == f.info_hash
            &&& next.ut_id == f.ut_id
            &&& next.size == f.size
            &&& next.requested == f.requested
            &&& next.pieces.len() == f.pieces.len()
            &&& f.pieces[piece as int] is None ==> next.pieces[piece as int] == Some(raw)
            &&& forall|k: int|
                0 <= k < f.pieces.len() && k != piece ==> #[trigger] next.pieces[k] == f.pieces[k]
        },
        f.step(1, encode(t) + raw) is Wait <==> f.pieces[piece as int] is Some || exists|k: int|
            0 <= k < f.pieces.len() && k != piece && (#[trigger] f.pieces[k]) is None,
        !(f.step(1, encode(t) + raw) is Request),
{
    lemma_metadata_message(t, raw, piece, f.size as int);
    let next = f.pieces.update(piece as int, Some(raw));
    if exists|k: int| 0 <= k < f.pieces.len() && k != piece && (#[trigger] f.pieces[k]) is None {
        let k = choose|k: int|
            0 <= k < f.pieces.len() && k != piece && (#[trigger] f.pieces[k]) is None;
        assert(next[k] is None);
    }
    if f.pieces[piece as int] is None && f.step(1, encode(t) + raw) is Wait {
        let after = Fetch { pieces: next, ..f };
        assert(!after.complete());
        let k = choose|k: int| 0 <= k < next.len() && (#[trigger] next[k]) is None;
        assert(f.pieces[k] is None);
    }
}

/// The last piece ends the exchange: with the torrent if what arrived has the
/// info hash, and with a mismatch if it has not, whatever it holds.
pub proof fn lemma_last_piece(f: Fetch, t: Tree, raw: Seq<u8>, piece: i64)
    requires
        finite(t),
        encode(t).len() <= isize::MAX,
        t.get_int("msg_type".spec_bytes()) == Some(1i64),
        t.get_int("piece".spec_bytes()) == Some(piece),
        f.ut_id != 0,
        f.pieces.len() == metadata_pieces(f.size as int),
        0 <= piece < f.pieces.len(),
        f.pieces[piece as int] is None,
        forall|k: int|
            0 <= k < f.pieces.len() && k != piece ==> (#[trigger] f.pieces[k]) is Some,
    ensures
        ({
            let info = assembled(f.pieces.update(piece as int, Some(raw)));
            let end = f.step(1, encode(t) + raw);
            &&& sha1(info) != f.info_hash ==> end == FetchStep::Fail(
                Error::Peer(PeerError::MetadataMismatch),
            )
            &&& sha1(info) == f.info_hash ==> (metainfo_of(wrapped(info)) matches Ok(torrent)
                ==> end == FetchStep::Done(Torrent { info_hash: f.info_hash, ..torrent }))
            &&& sha1(info) == f.info_hash ==> (metainfo_of(wrapped(info)) matches Err(e) ==> end
                == FetchStep::Fail(e))
        }),
{
    lemma_metadata_message(t, raw, piece, f.size as int);
    let after = Fetch { pieces: f.pieces.update(piece as int, Some(raw)), ..f };
    assert forall|k: int| 0 <= k < after.pieces.len() implies (
    #[trigger] after.pieces[k]) is Some by {
        if k != piece {
            assert(f.pieces[k] is Some);
        }
    }
    assert(after.complete());
}

/// A message that refuses a piece, asks for one, or is about one that does not
/// exist changes nothing.
pub proof fn lemma_no_piece(f: Fetch, t: Tree, raw: Seq<u8>)
    requires
        finite(t),
        encode(t).len() <= isize::MAX,
        f.ut_id != 0,
        t.get_int("msg_type".spec_bytes()) != Some(1i64) || (t.get_int(
            "piece".spec_bytes(),
        ) matches Some(i) ==> i < 0 || i >= metadata_pieces(f.size as int)),
    ensures
        f.step(1, encode(t) + raw) == FetchStep::Wait(f),
{
    let payload = encode(t) + raw;
    lemma_end_of_encoding(t, raw);
    assert(payload.take(encode(t).len() as int) =~= encode(t) + seq![]);
    lemma_lengths_fit(t);
    lemma_decode_encode(t, seq![]);
}

} // verus!

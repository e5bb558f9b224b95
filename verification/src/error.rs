//! Error types of the library.
//!
//! Errors that quote a text hold it as a `String`; contracts speak of them with
//! the characters of the text in its place.

use vstd::prelude::*;

use crate::text::{ascii_chars, decimal, hex_encode, hex_text, push_decimal, IntFault};

verus! {

/// Why bencoded data was rejected.
#[derive(Debug, Clone, PartialEq, Eq)]
pub enum BencodeError<S = String> {
    /// An integer or a length has no closing delimiter.
    UnterminatedInteger,
    /// The text of an integer or a length is not UTF-8.
    NonUtf8Integer { reason: S },
    /// The text of an integer or a length is not a 64-bit number.
    InvalidInteger { text: S, cause: IntFault },
    NegativeLength,
    /// A byte string runs past the end of the input.
    LengthExceedsInput { len: u64, offset: usize },
    UnterminatedList,
    UnterminatedDict,
    UnexpectedByte { byte: u8, offset: usize },
    UnexpectedEnd,
    /// The top level of a torrent file is not a dictionary.
    TorrentNotDict,
    UnterminatedTopLevelDict,
    /// A metadata message is empty.
    EmptyPayload,
    /// The dictionary of a metadata message holds an integer without an end.
    UnterminatedInt,
    MissingColon,
    InvalidStringLength,
    /// A byte that starts no value in a metadata message.
    UnexpectedToken,
    /// A string in a metadata message claims to run past the end of the message.
    StringPastEnd,
}

/// Why a torrent file was rejected.
#[derive(Debug, Clone, Copy, PartialEq, Eq)]
pub enum TorrentError {
    MissingInfo,
    MissingPieceLength,
    MissingPieces,
    /// The length of `pieces` is not a multiple of 20.
    PiecesLength { len: usize },
    LengthNotInteger,
    MissingFiles,
    FileMissingLength,
    FileMissingPath,
    PathNotString,
    SizeOverflow,
}

/// Why a magnet link was rejected.
#[derive(Debug, Clone, PartialEq, Eq)]
pub enum MagnetError<S = String> {
    MissingScheme,
    InvalidHex { cause: S },
    HashNotTwentyBytes,
    InvalidBase32,
    /// The info hash has neither 40 nor 32 bytes of text.
    HashLength { len: usize },
    MissingHash,
}

/// Why a tracker's answer was rejected.
#[derive(Debug, PartialEq, Eq)]
pub enum TrackerError<S = String> {
    /// The tracker gave this reason for refusing the announce.
    Failure(S),
    /// The length of the compact peer list is not a multiple of 6.
    CompactPeersLength { len: usize },
    ConnectTooShort,
    ConnectAction(u32),
    ConnectTransaction,
    AnnounceTooShort { len: usize },
    /// The UDP tracker answered with an error message.
    Udp(S),
    AnnounceAction(u32),
    AnnounceTransaction,
    /// The URL does not name a UDP tracker.
    NotUdp { url: S },
}

/// What went wrong with a peer.
#[derive(Debug, Clone, Copy, PartialEq, Eq)]
pub enum PeerError {
    /// The payload of the message with this id is shorter than the least it may have.
    MessageTooShort { id: u8, len: usize, min: usize },
    OversizedMessage { bytes: u32 },
    ConnectionClosed,
    ProtocolString { length: u8 },
    InfoHashMismatch,
    Rc4NotSelected,
    NoExtensionProtocol,
    NoUtMetadata,
    EmptyMetadata,
    /// The peer claims to have more metadata than can be addressed.
    MetadataTooLarge,
    MetadataMismatch,
    MetadataUnavailable,
    ChokeTimeout,
    LostWhileChoked,
    ChokedMidPiece,
    ClosedMidPiece,
    /// A block of a piece lies outside the piece.
    BlockOutOfBounds,
    InvalidRequest,
    RequestOutOfBounds,
}

/// The error type of the library's operations.
#[derive(Debug, PartialEq, Eq)]
pub enum Error<S = String> {
    Bencode(BencodeError<S>),
    InvalidTorrent(TorrentError),
    InvalidMagnet(MagnetError<S>),
    Tracker(TrackerError<S>),
    Peer(PeerError),
    /// The piece with this index failed SHA-1 verification.
    PieceVerification(u32),
    /// No peer could provide data any more.
    Stalled,
    NoTrackers,
    /// Trackers answered, but knew no peer.
    EmptySwarm,
}

/// Result of an operation of the library.
pub type Result<T> = std::result::Result<T, Error>;

// Views

impl View for BencodeError {
    type V = BencodeError<Seq<char>>;

    open spec fn view(&self) -> BencodeError<Seq<char>> {
        match *self {
            BencodeError::UnterminatedInteger => BencodeError::UnterminatedInteger,
            BencodeError::NonUtf8Integer { reason } => BencodeError::NonUtf8Integer {
                reason: reason@,
            },
            BencodeError::InvalidInteger { text, cause } => BencodeError::InvalidInteger {
                text: text@,
                cause,
            },
            BencodeError::NegativeLength => BencodeError::NegativeLength,
            BencodeError::LengthExceedsInput { len, offset } => BencodeError::LengthExceedsInput {
                len,
                offset,
            },
            BencodeError::UnterminatedList => BencodeError::UnterminatedList,
            BencodeError::UnterminatedDict => BencodeError::UnterminatedDict,
            BencodeError::UnexpectedByte { byte, offset } => BencodeError::UnexpectedByte {
                byte,
                offset,
            },
            BencodeError::UnexpectedEnd => BencodeError::UnexpectedEnd,
            BencodeError::TorrentNotDict => BencodeError::TorrentNotDict,
            BencodeError::UnterminatedTopLevelDict => BencodeError::UnterminatedTopLevelDict,
            BencodeError::EmptyPayload => BencodeError::EmptyPayload,
            BencodeError::UnterminatedInt => BencodeError::UnterminatedInt,
            BencodeError::MissingColon => BencodeError::MissingColon,
            BencodeError::InvalidStringLength => BencodeError::InvalidStringLength,
            BencodeError::UnexpectedToken => BencodeError::UnexpectedToken,
            BencodeError::StringPastEnd => BencodeError::StringPastEnd,
        }
    }
}

impl View for MagnetError {
    type V = MagnetError<Seq<char>>;

    open spec fn view(&self) -> MagnetError<Seq<char>> {
        match *self {
            MagnetError::MissingScheme => MagnetError::MissingScheme,
            MagnetError::InvalidHex { cause } => MagnetError::InvalidHex { cause: cause@ },
            MagnetError::HashNotTwentyBytes => MagnetError::HashNotTwentyBytes,
            MagnetError::InvalidBase32 => MagnetError::InvalidBase32,
            MagnetError::HashLength { len } => MagnetError::HashLength { len },
            MagnetError::MissingHash => MagnetError::MissingHash,
        }
    }
}

impl View for TrackerError {
    type V = TrackerError<Seq<char>>;

    open spec fn view(&self) -> TrackerError<Seq<char>> {
        match *self {
            TrackerError::Failure(reason) => TrackerError::Failure(reason@),
            TrackerError::CompactPeersLength { len } => TrackerError::CompactPeersLength { len },
            TrackerError::ConnectTooShort => TrackerError::ConnectTooShort,
            TrackerError::ConnectAction(action) => TrackerError::ConnectAction(action),
            TrackerError::ConnectTransaction => TrackerError::ConnectTransaction,
            TrackerError::AnnounceTooShort { len } => TrackerError::AnnounceTooShort { len },
            TrackerError::Udp(reason) => TrackerError::Udp(reason@),
            TrackerError::AnnounceAction(action) => TrackerError::AnnounceAction(action),
            TrackerError::AnnounceTransaction => TrackerError::AnnounceTransaction,
            TrackerError::NotUdp { url } => TrackerError::NotUdp { url: url@ },
        }
    }
}

impl View for Error {
    type V = Error<Seq<char>>;

    open spec fn view(&self) -> Error<Seq<char>> {
        match *self {
            Error::Bencode(e) => Error::Bencode(e@),
            Error::InvalidTorrent(e) => Error::InvalidTorrent(e),
            Error::InvalidMagnet(e) => Error::InvalidMagnet(e@),
            Error::Tracker(e) => Error::Tracker(e@),
            Error::Peer(e) => Error::Peer(e),
            Error::PieceVerification(index) => Error::PieceVerification(index),
            Error::Stalled => Error::Stalled,
            Error::NoTrackers => Error::NoTrackers,
            Error::EmptySwarm => Error::EmptySwarm,
        }
    }
}

// Texts

fn plain(s: &str) -> (r: String)
    ensures
        r@ == s@,
{
    let mut r = String::new();
    r.push_str(s);
    assert(r@ =~= s@);
    r
}

fn with_text(before: &str, s: &str) -> (r: String)
    ensures
        r@ == before@ + s@,
{
    let mut r = plain(before);
    r.push_str(s);
    r
}

fn numbered(before: &str, n: u64, after: &str) -> (r: String)
    ensures
        r@ == before@ + ascii_chars(decimal(n as nat)) + after@,
{
    let mut r = plain(before);
    push_decimal(&mut r, n);
    r.push_str(after);
    r
}

/// The name of the peer message with the given id.
pub open spec fn message_name(id: u8) -> Seq<char> {
    match id {
        4 => "have"@,
        6 => "request"@,
        7 => "piece"@,
        8 => "cancel"@,
        9 => "port"@,
        20 => "extension"@,
        _ => "unknown"@,
    }
}

fn name_of_message(id: u8) -> (r: &'static str)
    ensures
        r@ == message_name(id),
{
    match id {
        4 => "have",
        6 => "request",
        7 => "piece",
        8 => "cancel",
        9 => "port",
        20 => "extension",
        _ => "unknown",
    }
}

impl BencodeError<Seq<char>> {
    /// The text of the error.
    pub open spec fn text(self) -> Seq<char> {
        match self {
            BencodeError::UnterminatedInteger => "unterminated integer"@,
            BencodeError::NonUtf8Integer { reason } => "non-UTF8 integer: "@ + reason,
            BencodeError::InvalidInteger { text, cause } => "invalid integer '"@ + text + "': "@
                + cause.text(),
            BencodeError::NegativeLength => "negative byte-string length"@,
            BencodeError::UnterminatedList => "unterminated list"@,
            BencodeError::UnterminatedDict => "unterminated dict"@,
            BencodeError::UnexpectedEnd => "unexpected end of input"@,
            BencodeError::TorrentNotDict => "torrent must start with a dict"@,
            BencodeError::UnterminatedTopLevelDict => "unterminated top-level dict"@,
            BencodeError::EmptyPayload => "empty payload"@,
            BencodeError::UnterminatedInt => "unterminated int"@,
            BencodeError::MissingColon => "no colon in string"@,
            BencodeError::InvalidStringLength => "invalid string length"@,
            BencodeError::UnexpectedToken => "unexpected byte in bencode"@,
            BencodeError::StringPastEnd => "string exceeds input"@,
            BencodeError::LengthExceedsInput { len, offset } => "byte-string of length "@ + ascii_chars(decimal(len as nat))
                + " exceeds input at offset "@ + ascii_chars(decimal(offset as nat)),
            BencodeError::UnexpectedByte { byte, offset } => "unexpected byte 0x"@ + hex_text(seq![byte])
                + " at offset "@ + ascii_chars(decimal(offset as nat)),
        }
    }
}

impl BencodeError {
    /// The text of the error.
    pub fn message(&self) -> (r: String)
        ensures
            r@ == self@.text(),
    {
        match self {
            BencodeError::UnterminatedInteger => plain("unterminated integer"),
            BencodeError::NonUtf8Integer { reason } => with_text("non-UTF8 integer: ", reason.as_str()),
            BencodeError::InvalidInteger { text, cause } => {
                let mut r = with_text("invalid integer '", text.as_str());
                r.push_str("': ");
                r.push_str(cause.message());
                r
            },
            BencodeError::NegativeLength => plain("negative byte-string length"),
            BencodeError::UnterminatedList => plain("unterminated list"),
            BencodeError::UnterminatedDict => plain("unterminated dict"),
            BencodeError::UnexpectedEnd => plain("unexpected end of input"),
            BencodeError::TorrentNotDict => plain("torrent must start with a dict"),
            BencodeError::UnterminatedTopLevelDict => plain("unterminated top-level dict"),
            BencodeError::EmptyPayload => plain("empty payload"),
            BencodeError::UnterminatedInt => plain("unterminated int"),
            BencodeError::MissingColon => plain("no colon in string"),
            BencodeError::InvalidStringLength => plain("invalid string length"),
            BencodeError::UnexpectedToken => plain("unexpected byte in bencode"),
            BencodeError::StringPastEnd => plain("string exceeds input"),
            BencodeError::LengthExceedsInput { len, offset } => {
                let mut r = plain("byte-string of length ");
                push_decimal(&mut r, *len);
                r.push_str(" exceeds input at offset ");
                push_decimal(&mut r, *offset as u64);
                r
            },
            BencodeError::UnexpectedByte { byte, offset } => {
                let mut r = plain("unexpected byte 0x");
                let bytes: [u8; 1] = [*byte];
                assert(bytes@ =~= seq![*byte]);
                r.push_str(hex_encode(bytes.as_slice()).as_str());
                r.push_str(" at offset ");
                push_decimal(&mut r, *offset as u64);
                r
            },
        }
    }
}

impl TorrentError {
    /// The text of the error.
    pub open spec fn text(self) -> Seq<char> {
        match self {
            TorrentError::MissingInfo => "missing 'info' key"@,
            TorrentError::MissingPieceLength => "missing 'piece length'"@,
            TorrentError::MissingPieces => "missing 'pieces'"@,
            TorrentError::LengthNotInteger => "'length' must be an integer"@,
            TorrentError::MissingFiles => "missing 'files' in multi-file torrent"@,
            TorrentError::FileMissingLength => "file entry missing 'length'"@,
            TorrentError::FileMissingPath => "file entry missing 'path'"@,
            TorrentError::PathNotString => "path component must be a string"@,
            TorrentError::SizeOverflow => "total size overflow"@,
            TorrentError::PiecesLength { len } => "'pieces' length "@ + ascii_chars(decimal(len as nat)) + " is not a multiple of 20"@,
        }
    }

    /// The text of the error.
    pub fn message(&self) -> (r: String)
        ensures
            r@ == self.text(),
    {
        match self {
            TorrentError::MissingInfo => plain("missing 'info' key"),
            TorrentError::MissingPieceLength => plain("missing 'piece length'"),
            TorrentError::MissingPieces => plain("missing 'pieces'"),
            TorrentError::LengthNotInteger => plain("'length' must be an integer"),
            TorrentError::MissingFiles => plain("missing 'files' in multi-file torrent"),
            TorrentError::FileMissingLength => plain("file entry missing 'length'"),
            TorrentError::FileMissingPath => plain("file entry missing 'path'"),
            TorrentError::PathNotString => plain("path component must be a string"),
            TorrentError::SizeOverflow => plain("total size overflow"),
            TorrentError::PiecesLength { len } => numbered("'pieces' length ", *len as u64, " is not a multiple of 20"),
        }
    }
}

impl MagnetError<Seq<char>> {
    /// The text of the error.
    pub open spec fn text(self) -> Seq<char> {
        match self {
            MagnetError::MissingScheme => "must start with 'magnet:?'"@,
            MagnetError::InvalidHex { cause } => "invalid hex info_hash: "@ + cause,
            MagnetError::HashNotTwentyBytes => "info_hash must be 20 bytes"@,
            MagnetError::InvalidBase32 => "invalid base32 info_hash"@,
            MagnetError::MissingHash => "missing 'xt=urn:btih:' parameter"@,
            MagnetError::HashLength { len } => "info_hash must be 40-char hex or 32-char base32, got "@ + ascii_chars(decimal(len as nat)) + " chars"@,
        }
    }
}

impl MagnetError {
    /// The text of the error.
    pub fn message(&self) -> (r: String)
        ensures
            r@ == self@.text(),
    {
        match self {
            MagnetError::MissingScheme => plain("must start with 'magnet:?'"),
            MagnetError::InvalidHex { cause } => with_text("invalid hex info_hash: ", cause.as_str()),
            MagnetError::HashNotTwentyBytes => plain("info_hash must be 20 bytes"),
            MagnetError::InvalidBase32 => plain("invalid base32 info_hash"),
            MagnetError::MissingHash => plain("missing 'xt=urn:btih:' parameter"),
            MagnetError::HashLength { len } => numbered("info_hash must be 40-char hex or 32-char base32, got ", *len as u64, " chars"),
        }
    }
}

impl TrackerError<Seq<char>> {
    /// The text of the error.
    pub open spec fn text(self) -> Seq<char> {
        match self {
            TrackerError::ConnectTooShort => "UDP connect response too short"@,
            TrackerError::ConnectTransaction => "UDP connect: transaction ID mismatch"@,
            TrackerError::AnnounceTransaction => "UDP announce: transaction ID mismatch"@,
            TrackerError::NotUdp { url } => "not a UDP tracker URL: "@ + url,
            TrackerError::CompactPeersLength { len } => "compact peers length "@ + ascii_chars(decimal(len as nat)) + " not a multiple of 6"@,
            TrackerError::ConnectAction(action) => "UDP connect: unexpected action "@ + ascii_chars(decimal(action as nat)) + ""@,
            TrackerError::AnnounceTooShort { len } => "UDP announce response too short: "@ + ascii_chars(decimal(len as nat)) + ""@,
            TrackerError::AnnounceAction(action) => "UDP announce: unexpected action "@ + ascii_chars(decimal(action as nat)) + ""@,
            TrackerError::Failure(reason) => "tracker: "@ + reason,
            TrackerError::Udp(reason) => "UDP tracker error: "@ + reason,
        }
    }
}

impl TrackerError {
    /// The text of the error.
    pub fn message(&self) -> (r: String)
        ensures
            r@ == self@.text(),
    {
        match self {
            TrackerError::ConnectTooShort => plain("UDP connect response too short"),
            TrackerError::ConnectTransaction => plain("UDP connect: transaction ID mismatch"),
            TrackerError::AnnounceTransaction => plain("UDP announce: transaction ID mismatch"),
            TrackerError::NotUdp { url } => with_text("not a UDP tracker URL: ", url.as_str()),
            TrackerError::CompactPeersLength { len } => numbered("compact peers length ", *len as u64, " not a multiple of 6"),
            TrackerError::ConnectAction(action) => numbered("UDP connect: unexpected action ", *action as u64, ""),
            TrackerError::AnnounceTooShort { len } => numbered("UDP announce response too short: ", *len as u64, ""),
            TrackerError::AnnounceAction(action) => numbered("UDP announce: unexpected action ", *action as u64, ""),
            TrackerError::Failure(reason) => with_text("tracker: ", reason.as_str()),
            TrackerError::Udp(reason) => with_text("UDP tracker error: ", reason.as_str()),
        }
    }
}

impl PeerError {
    /// The text of the error.
    pub open spec fn text(self) -> Seq<char> {
        match self {
            PeerError::ConnectionClosed => "connection closed by peer"@,
            PeerError::InfoHashMismatch => "info_hash mismatch in handshake"@,
            PeerError::Rc4NotSelected => "MSE: peer did not select RC4"@,
            PeerError::NoExtensionProtocol => "peer does not support extension protocol"@,
            PeerError::NoUtMetadata => "peer does not support ut_metadata"@,
            PeerError::EmptyMetadata => "peer sent metadata_size=0"@,
            PeerError::MetadataTooLarge => "peer sent too large a metadata_size"@,
            PeerError::MetadataMismatch => "metadata SHA-1 mismatch"@,
            PeerError::MetadataUnavailable => "could not fetch torrent metadata from any peer"@,
            PeerError::ChokeTimeout => "choke timeout"@,
            PeerError::LostWhileChoked => "connection lost while waiting for unchoke"@,
            PeerError::ChokedMidPiece => "choked mid-piece"@,
            PeerError::ClosedMidPiece => "connection closed mid-piece"@,
            PeerError::BlockOutOfBounds => "block out of piece bounds"@,
            PeerError::InvalidRequest => "invalid REQUEST"@,
            PeerError::RequestOutOfBounds => "REQUEST out of piece bounds"@,
            PeerError::OversizedMessage { bytes } => "peer sent oversized message: "@ + ascii_chars(decimal(bytes as nat)) + " bytes"@,
            PeerError::ProtocolString { length } => "unexpected protocol string ("@ + ascii_chars(decimal(length as nat)) + " bytes)"@,
            PeerError::MessageTooShort { id, len, min } => "'"@ + message_name(id) + "' message too short: "@ + ascii_chars(
                decimal(len as nat),
            ) + " < "@ + ascii_chars(decimal(min as nat)),
        }
    }

    /// The text of the error.
    pub fn message(&self) -> (r: String)
        ensures
            r@ == self.text(),
    {
        match self {
            PeerError::ConnectionClosed => plain("connection closed by peer"),
            PeerError::InfoHashMismatch => plain("info_hash mismatch in handshake"),
            PeerError::Rc4NotSelected => plain("MSE: peer did not select RC4"),
            PeerError::NoExtensionProtocol => plain("peer does not support extension protocol"),
            PeerError::NoUtMetadata => plain("peer does not support ut_metadata"),
            PeerError::EmptyMetadata => plain("peer sent metadata_size=0"),
            PeerError::MetadataTooLarge => plain("peer sent too large a metadata_size"),
            PeerError::MetadataMismatch => plain("metadata SHA-1 mismatch"),
            PeerError::MetadataUnavailable => plain("could not fetch torrent metadata from any peer"),
            PeerError::ChokeTimeout => plain("choke timeout"),
            PeerError::LostWhileChoked => plain("connection lost while waiting for unchoke"),
            PeerError::ChokedMidPiece => plain("choked mid-piece"),
            PeerError::ClosedMidPiece => plain("connection closed mid-piece"),
            PeerError::BlockOutOfBounds => plain("block out of piece bounds"),
            PeerError::InvalidRequest => plain("invalid REQUEST"),
            PeerError::RequestOutOfBounds => plain("REQUEST out of piece bounds"),
            PeerError::OversizedMessage { bytes } => numbered("peer sent oversized message: ", *bytes as u64, " bytes"),
            PeerError::ProtocolString { length } => numbered("unexpected protocol string (", *length as u64, " bytes)"),
            PeerError::MessageTooShort { id, len, min } => {
                let mut r = plain("'");
                r.push_str(name_of_message(*id));
                r.push_str("' message too short: ");
                push_decimal(&mut r, *len as u64);
                r.push_str(" < ");
                push_decimal(&mut r, *min as u64);
                r
            },
        }
    }
}

impl Error<Seq<char>> {
    /// The text of the error.
    pub open spec fn text(self) -> Seq<char> {
        match self {
            Error::Stalled => "Download stalled: no peers could provide data"@,
            Error::NoTrackers => "No trackers responded"@,
            Error::EmptySwarm => "Trackers responded but no peers are available; the swarm may be empty or this torrent is new"@,
            Error::Bencode(e) => "Bencode parse error: "@ + e.text(),
            Error::InvalidTorrent(e) => "Invalid torrent: "@ + e.text(),
            Error::InvalidMagnet(e) => "Invalid magnet link: "@ + e.text(),
            Error::Tracker(e) => "Tracker error: "@ + e.text(),
            Error::Peer(e) => "Peer error: "@ + e.text(),
            Error::PieceVerification(index) => "Piece "@ + ascii_chars(decimal(index as nat)) + " failed SHA-1 verification"@,
        }
    }
}

impl Error {
    /// The text of the error.
    pub fn message(&self) -> (r: String)
        ensures
            r@ == self@.text(),
    {
        match self {
            Error::Stalled => plain("Download stalled: no peers could provide data"),
            Error::NoTrackers => plain("No trackers responded"),
            Error::EmptySwarm => plain("Trackers responded but no peers are available; the swarm may be empty or this torrent is new"),
            Error::Bencode(e) => with_text("Bencode parse error: ", e.message().as_str()),
            Error::InvalidTorrent(e) => with_text("Invalid torrent: ", e.message().as_str()),
            Error::InvalidMagnet(e) => with_text("Invalid magnet link: ", e.message().as_str()),
            Error::Tracker(e) => with_text("Tracker error: ", e.message().as_str()),
            Error::Peer(e) => with_text("Peer error: ", e.message().as_str()),
            Error::PieceVerification(index) => numbered("Piece ", *index as u64, " failed SHA-1 verification"),
        }
    }
}

} // verus!

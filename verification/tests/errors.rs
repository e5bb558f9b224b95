use stormdrain::error::{
    BencodeError, Error, MagnetError, PeerError, TorrentError, TrackerError,
};
use stormdrain::text::IntFault;

#[test]
fn messages_of_errors() {
    let cases = [
        (
            Error::Bencode(BencodeError::UnexpectedEnd),
            "Bencode parse error: unexpected end of input",
        ),
        (
            Error::Bencode(BencodeError::LengthExceedsInput { len: 12, offset: 3 }),
            "Bencode parse error: byte-string of length 12 exceeds input at offset 3",
        ),
        (
            Error::Bencode(BencodeError::UnexpectedByte {
                byte: 0x0a,
                offset: 0,
            }),
            "Bencode parse error: unexpected byte 0x0a at offset 0",
        ),
        (
            Error::Bencode(BencodeError::InvalidInteger {
                text: "4x".to_string(),
                cause: IntFault::InvalidDigit,
            }),
            "Bencode parse error: invalid integer '4x': invalid digit found in string",
        ),
        (
            Error::Bencode(BencodeError::NonUtf8Integer {
                reason: "bad".to_string(),
            }),
            "Bencode parse error: non-UTF8 integer: bad",
        ),
        (
            Error::InvalidMagnet(MagnetError::InvalidHex {
                cause: "bad".to_string(),
            }),
            "Invalid magnet link: invalid hex info_hash: bad",
        ),
        (
            Error::Tracker(TrackerError::NotUdp {
                url: "http://t".to_string(),
            }),
            "Tracker error: not a UDP tracker URL: http://t",
        ),
        (
            Error::InvalidTorrent(TorrentError::PiecesLength { len: 21 }),
            "Invalid torrent: 'pieces' length 21 is not a multiple of 20",
        ),
        (
            Error::InvalidMagnet(MagnetError::HashLength { len: 6 }),
            "Invalid magnet link: info_hash must be 40-char hex or 32-char base32, got 6 chars",
        ),
        (
            Error::Tracker(TrackerError::ConnectAction(3)),
            "Tracker error: UDP connect: unexpected action 3",
        ),
        (
            Error::Tracker(TrackerError::Udp("busy".to_string())),
            "Tracker error: UDP tracker error: busy",
        ),
        (
            Error::Peer(PeerError::MessageTooShort {
                id: 6,
                len: 4,
                min: 12,
            }),
            "Peer error: 'request' message too short: 4 < 12",
        ),
        (
            Error::Peer(PeerError::OversizedMessage { bytes: 9000000 }),
            "Peer error: peer sent oversized message: 9000000 bytes",
        ),
        (
            Error::Peer(PeerError::ChokeTimeout),
            "Peer error: choke timeout",
        ),
        (
            Error::PieceVerification(7),
            "Piece 7 failed SHA-1 verification",
        ),
        (
            Error::Stalled,
            "Download stalled: no peers could provide data",
        ),
        (Error::NoTrackers, "No trackers responded"),
        (
            Error::EmptySwarm,
            "Trackers responded but no peers are available; the swarm may be empty or this torrent is new",
        ),
    ];
    for (e, text) in cases {
        assert_eq!(e.message(), text);
    }
}

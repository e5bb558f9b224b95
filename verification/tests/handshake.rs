use stormdrain::error::{Error, PeerError};
use stormdrain::peer::handshake::{build_handshake, parse_handshake, HANDSHAKE_LEN};
use stormdrain::types::{InfoHash, PeerId};

fn make_handshake_response(
    info_hash: &InfoHash,
    peer_id: [u8; 20],
    reserved: [u8; 8],
) -> [u8; 68] {
    let mut resp = [0u8; 68];
    resp[0] = 19;
    resp[1..20].copy_from_slice(b"BitTorrent protocol");
    resp[20..28].copy_from_slice(&reserved);
    resp[28..48].copy_from_slice(info_hash.as_bytes());
    resp[48..68].copy_from_slice(&peer_id);
    resp
}

#[test]
fn perform_valid_handshake() {
    let info_hash = InfoHash([1u8; 20]);
    let peer_id = [3u8; 20];
    let resp = make_handshake_response(&info_hash, peer_id, [0u8; 8]);
    let result = parse_handshake(&resp, &info_hash).unwrap();
    assert_eq!(result.peer_id, peer_id);
    assert!(!result.capabilities.extension_protocol);
    assert!(!result.capabilities.dht);
}

#[test]
fn perform_detects_info_hash_mismatch() {
    let info_hash = InfoHash([1u8; 20]);
    let wrong_hash = InfoHash([9u8; 20]);
    let resp = make_handshake_response(&wrong_hash, [5u8; 20], [0u8; 8]);
    assert!(matches!(
        parse_handshake(&resp, &info_hash),
        Err(Error::Peer(PeerError::InfoHashMismatch))
    ));
}

#[test]
fn perform_parses_extension_protocol_capability() {
    let info_hash = InfoHash([1u8; 20]);
    let mut reserved = [0u8; 8];
    reserved[5] = 0x10; // BEP-10 extension protocol
    reserved[7] = 0x01; // DHT
    let resp = make_handshake_response(&info_hash, [7u8; 20], reserved);
    let result = parse_handshake(&resp, &info_hash).unwrap();
    assert!(result.capabilities.extension_protocol);
    assert!(result.capabilities.dht);
    assert!(!result.capabilities.fast);
}

#[test]
fn perform_rejects_wrong_protocol_string() {
    let info_hash = InfoHash([1u8; 20]);
    let mut resp = [0u8; 68];
    resp[0] = 19;
    resp[1..20].copy_from_slice(b"WrongProtocol!!!   "); // wrong protocol string
    resp[28..48].copy_from_slice(info_hash.as_bytes());
    assert!(matches!(
        parse_handshake(&resp, &info_hash),
        Err(Error::Peer(PeerError::ProtocolString { length: 19 }))
    ));
}

#[test]
fn our_handshake_has_the_standard_layout() {
    let msg = build_handshake(&InfoHash([0xAA; 20]), &PeerId([0xBB; 20]));
    assert_eq!(msg.len(), HANDSHAKE_LEN);
    assert_eq!(msg[0], 19);
    assert_eq!(&msg[1..20], b"BitTorrent protocol");
    assert_eq!(msg[25] & 0x10, 0x10);
    assert_eq!(&msg[28..48], &[0xAA; 20]);
    assert_eq!(&msg[48..68], &[0xBB; 20]);
}

#[test]
fn our_own_handshake_is_understood() {
    let info_hash = InfoHash([0xAA; 20]);
    let msg = build_handshake(&info_hash, &PeerId([0xBB; 20]));
    let result = parse_handshake(&msg, &info_hash).unwrap();
    assert_eq!(result.peer_id, [0xBB; 20]);
    assert!(result.capabilities.extension_protocol);
}

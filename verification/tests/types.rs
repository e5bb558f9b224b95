use stormdrain::types::{
    read_compact4, read_compact6, same_addr, InfoHash, IpAddr, PeerAddr, PeerId,
};

#[test]
fn info_hash_to_hex_all_zeros() {
    let h = InfoHash([0u8; 20]);
    assert_eq!(h.to_hex(), "0000000000000000000000000000000000000000");
}

#[test]
fn info_hash_to_hex_known_value() {
    let mut bytes = [0u8; 20];
    bytes[0] = 0xde;
    bytes[1] = 0xad;
    bytes[2] = 0xbe;
    bytes[3] = 0xef;
    let h = InfoHash(bytes);
    assert!(h.to_hex().starts_with("deadbeef"));
    assert_eq!(h.to_hex().len(), 40);
}

#[test]
fn info_hash_url_encode_length() {
    let h = InfoHash([0u8; 20]);
    // Each byte becomes %XX (3 chars); 20 bytes = 60 chars total.
    assert_eq!(h.url_encode().len(), 60);
}

#[test]
fn info_hash_url_encode_format() {
    let mut bytes = [0u8; 20];
    bytes[0] = 0xab;
    bytes[1] = 0xcd;
    let h = InfoHash(bytes);
    let enc = h.url_encode();
    assert!(enc.starts_with("%ab%cd"));
}

#[test]
fn info_hash_as_bytes_roundtrip() {
    let bytes: [u8; 20] = [
        1, 2, 3, 4, 5, 6, 7, 8, 9, 10, 11, 12, 13, 14, 15, 16, 17, 18, 19, 20,
    ];
    let h = InfoHash(bytes);
    assert_eq!(h.as_bytes(), &bytes);
}

#[test]
fn info_hash_display() {
    let h = InfoHash([0u8; 20]);
    assert_eq!(h.to_string(), "0000000000000000000000000000000000000000");
}

#[test]
fn peer_id_url_encode_unreserved_passthrough() {
    // Alphanumeric and '-', '.', '_', '~' pass through un-encoded.
    let mut bytes = [b'a'; 20];
    bytes[0] = b'Z';
    bytes[1] = b'-';
    bytes[2] = b'.';
    let p = PeerId(bytes);
    let enc = p.url_encode();
    assert!(enc.starts_with("Z-.a"));
    assert!(!enc.contains('%'));
}

#[test]
fn peer_id_url_encode_non_ascii_percent_encoded() {
    let mut bytes = [0u8; 20];
    bytes[0] = b'a'; // passes through
    bytes[1] = 0xff; // percent-encoded
    bytes[2] = 0x00; // percent-encoded
    let p = PeerId(bytes);
    let enc = p.url_encode();
    assert!(enc.starts_with("a%ff%00"));
}

#[test]
fn peer_id_as_bytes_roundtrip() {
    let bytes = [42u8; 20];
    let p = PeerId(bytes);
    assert_eq!(p.as_bytes(), &bytes);
}

#[test]
fn info_hash_equality() {
    let a = InfoHash([7u8; 20]);
    let b = InfoHash([7u8; 20]);
    let c = InfoHash([8u8; 20]);
    assert_eq!(a, b);
    assert_ne!(a, c);
}

#[test]
fn compact_addresses_are_read() {
    let raw = [1, 2, 3, 4, 0x1A, 0xE1];
    assert_eq!(
        read_compact4(&raw, 0),
        PeerAddr {
            ip: IpAddr::V4([1, 2, 3, 4]),
            port: 6881
        }
    );
    let mut raw = vec![0xFE; 16];
    raw.extend_from_slice(&[0, 80]);
    let a = read_compact6(&raw, 0);
    assert_eq!(
        a,
        PeerAddr {
            ip: IpAddr::V6([0xFE; 16]),
            port: 80
        }
    );
    assert!(same_addr(&a, &a));
    assert!(!same_addr(
        &a,
        &PeerAddr {
            ip: IpAddr::V6([0xFE; 16]),
            port: 81
        }
    ));
    assert!(!same_addr(
        &a,
        &PeerAddr {
            ip: IpAddr::V4([0xFE; 4]),
            port: 80
        }
    ));
}

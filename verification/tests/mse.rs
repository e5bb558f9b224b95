use num_bigint::BigUint;
use stormdrain::error::{Error, PeerError};
use stormdrain::peer::mse::{
    combine_hashes, parse_prime, public_key, random_pad, selected, sha1_hash, shared_secret,
    to_fixed_bytes, Initiator, Rc4, Selected, DH_KEY_BYTES, P_HEX, RESPONSE_LEN,
};
use stormdrain::types::InfoHash;

// Rc4

#[test]
fn rc4_encrypt_decrypt_is_symmetric() {
    let key = b"secret-key-12345";
    let plaintext = b"Hello, BitTorrent world!";

    let mut enc = Rc4::new(key);
    let ciphertext = enc.encrypt(plaintext);
    assert_ne!(&ciphertext, plaintext);

    let mut dec = Rc4::new(key);
    let mut buf = ciphertext.clone();
    dec.decrypt(&mut buf);
    assert_eq!(&buf, plaintext);
}

#[test]
fn rc4_apply_twice_with_fresh_instance_is_identity() {
    // RC4 is its own inverse: encrypt(key, encrypt(key, m)) == m
    // when each encryption uses a freshly initialized cipher.
    let key = b"test";
    let original = vec![0x01u8, 0x02, 0x03, 0x04, 0x05];
    let mut buf = original.clone();
    Rc4::new(key).apply(&mut buf);
    Rc4::new(key).apply(&mut buf); // fresh instance → same keystream → restores original
    assert_eq!(buf, original);
}

#[test]
fn rc4_different_keys_produce_different_ciphertext() {
    let msg = b"same plaintext";
    let mut enc1 = Rc4::new(b"key1");
    let mut enc2 = Rc4::new(b"key2");
    let c1 = enc1.encrypt(msg);
    let c2 = enc2.encrypt(msg);
    assert_ne!(c1, c2);
}

#[test]
fn rc4_empty_input_is_no_op() {
    let mut rc4 = Rc4::new(b"key");
    let mut buf: Vec<u8> = vec![];
    rc4.apply(&mut buf);
    assert!(buf.is_empty());
}

// DH helpers

#[test]
fn parse_prime_is_nonzero() {
    let p = BigUint::from_bytes_be(&parse_prime());
    assert_ne!(p, BigUint::from(0u32));
}

#[test]
fn parse_prime_has_expected_byte_length() {
    let p = BigUint::from_bytes_be(&parse_prime());
    // 768-bit prime = 96 bytes.
    assert_eq!(p.to_bytes_be().len(), DH_KEY_BYTES);
}

#[test]
fn to_fixed_bytes_pads_short_number_to_96_bytes() {
    let n = BigUint::from(1u32);
    let bytes = to_fixed_bytes(&n.to_bytes_be());
    assert_eq!(bytes.len(), DH_KEY_BYTES);
    // Value 1 should appear at the last byte.
    assert_eq!(bytes[DH_KEY_BYTES - 1], 1);
    // All other bytes are zero.
    assert!(bytes[..DH_KEY_BYTES - 1].iter().all(|&b| b == 0));
}

#[test]
fn dh_key_bytes_constant() {
    assert_eq!(DH_KEY_BYTES, 96);
}

// sha1_hash helper

#[test]
fn sha1_hash_known_value() {
    // SHA-1 of empty string = da39a3ee5e6b4b0d3255bfef95601890afd80709
    let digest = sha1_hash(&[b""]);
    let hex = hex::encode(digest);
    assert_eq!(hex, "da39a3ee5e6b4b0d3255bfef95601890afd80709");
}

#[test]
fn sha1_hash_multiple_parts() {
    // SHA-1("ab") == SHA-1("a" || "b")
    let combined = sha1_hash(&[b"ab"]);
    let split = sha1_hash(&[b"a", b"b"]);
    assert_eq!(combined, split);
}

// The handshake

fn hex_bytes(s: &str) -> Vec<u8> {
    hex::decode(s).unwrap()
}

#[test]
fn rc4_known_key_stream() {
    // The published key stream of this key from byte 1024 on.
    let mut c = Rc4::new(&[1, 2, 3, 4, 5]);
    let mut data = [0u8; 16];
    c.apply(&mut data);
    assert_eq!(
        data.to_vec(),
        hex_bytes("30abbcc7c20b01609f23ee2d5f6bb7df")
    );
}

#[test]
fn both_sides_agree_on_the_secret() {
    let a = vec![3u8; 20];
    let b = vec![5u8; 20];
    let xa = public_key(&a);
    let xb = public_key(&b);
    assert_eq!(xa.len(), DH_KEY_BYTES);
    assert_ne!(xa, xb);
    assert_eq!(shared_secret(&xb, &a), shared_secret(&xa, &b));
}

#[test]
fn public_key_of_a_small_exponent() {
    let mut want = vec![0u8; 96];
    want[95] = 8;
    assert_eq!(public_key(&[3]), want);
    assert_eq!(P_HEX.len(), 192);
    assert_eq!(BigUint::from_bytes_be(&parse_prime()), BigUint::parse_bytes(P_HEX.as_bytes(), 16).unwrap());
}

#[test]
fn private_keys_are_random() {
    let hash = InfoHash([1; 20]);
    let a = Initiator::start(hash).hello(&[]);
    let b = Initiator::start(hash).hello(&[]);
    assert_eq!(a.len(), DH_KEY_BYTES);
    assert_ne!(a, b);
}

#[test]
fn padding_is_short() {
    for _ in 0..50 {
        assert!(random_pad().len() < 64);
    }
    let pads: Vec<Vec<u8>> = (0..20).map(|_| random_pad()).collect();
    assert!(pads.iter().any(|p| p != &pads[0]));
}

#[test]
fn hashes_are_combined() {
    let r = combine_hashes(&[1; 20], &[0b1100; 20], &[0b1010; 20]);
    assert_eq!(r, vec![0b0111; 20]);
}

#[test]
fn a_responder_understands_the_handshake() {
    let skey = InfoHash([0x5A; 20]);
    let initiator = Initiator::with_key(vec![7; 20], skey);
    let hello = initiator.hello(&[9, 9]);
    assert_eq!(&hello[96..], &[9, 9]);

    // The other side of the exchange.
    let b = vec![11u8; 20];
    let xb = public_key(&b);
    let s = shared_secret(&hello[..96], &b);
    let (msg, mut codec) = initiator.answer(&xb);
    let req1 = sha1_hash(&[b"req1", &s]);
    let req2 = sha1_hash(&[b"req2", skey.as_bytes()]);
    let req3 = sha1_hash(&[b"req3", &s]);
    let xor: Vec<u8> = (0..20).map(|i| req1[i] ^ (req2[i] ^ req3[i])).collect();
    assert_eq!(&msg[..20], &xor[..]);
    let mut dec = Rc4::new(&sha1_hash(&[b"keyA", &s, skey.as_bytes()]));
    let mut init = msg[20..].to_vec();
    dec.decrypt(&mut init);
    assert_eq!(init, [0, 0, 0, 0, 0, 0, 0, 0, 0, 0, 0, 2, 0, 0, 0, 0]);

    let mut enc = Rc4::new(&sha1_hash(&[b"keyB", &s, skey.as_bytes()]));
    let resp = enc.encrypt(&[0, 0, 0, 0, 0, 0, 0, 0, 0, 0, 0, 2, 0, 3]);
    assert_eq!(resp.len(), RESPONSE_LEN);
    assert_eq!(codec.open_response(&resp), (2, 3));
    let mut pad = enc.encrypt(&[0; 3]);
    codec.decrypt(&mut pad);

    // What is sent is understood, in both directions.
    let mut there = enc.encrypt(b"hello");
    codec.decrypt(&mut there);
    assert_eq!(there, b"hello");
    codec.queue(b"back ");
    codec.queue(b"again");
    let mut wire = codec.pending().to_vec();
    assert_eq!(wire.len(), 10);
    codec.written(4);
    assert_eq!(codec.pending(), &wire[4..]);
    dec.decrypt(&mut wire);
    assert_eq!(wire, b"back again");
}

#[test]
fn the_peer_selects_the_method() {
    assert_eq!(selected(2), Ok(Selected::Rc4));
    assert_eq!(selected(3), Ok(Selected::Rc4));
    assert_eq!(selected(1), Ok(Selected::Plaintext));
    assert_eq!(selected(0), Err(Error::Peer(PeerError::Rc4NotSelected)));
    assert_eq!(selected(4), Err(Error::Peer(PeerError::Rc4NotSelected)));
}

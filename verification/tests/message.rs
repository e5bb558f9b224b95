use bytes::Bytes;
use stormdrain::error::{Error, PeerError};
use stormdrain::peer::message::{Message, BLOCK_SIZE, MSG_HAVE, MSG_REQUEST};

/// Encode a message and decode the payload back, returning the decoded message.
fn roundtrip(msg: &Message) -> Message {
    let encoded = msg.encode();
    // encoded = 4-byte length prefix + 1-byte id + payload
    // For KeepAlive: only 4 bytes (length=0), no id byte.
    let len = u32::from_be_bytes(encoded[..4].try_into().unwrap());
    if len == 0 {
        return Message::KeepAlive;
    }
    let id = encoded[4];
    let payload = &encoded[5..];
    Message::decode(id, payload).unwrap()
}

#[test]
fn keepalive_encode_is_four_zero_bytes() {
    let enc = Message::KeepAlive.encode();
    assert_eq!(&enc[..], &[0, 0, 0, 0]);
}

#[test]
fn choke_roundtrip() {
    assert!(matches!(roundtrip(&Message::Choke), Message::Choke));
}

#[test]
fn unchoke_roundtrip() {
    assert!(matches!(roundtrip(&Message::Unchoke), Message::Unchoke));
}

#[test]
fn interested_roundtrip() {
    assert!(matches!(
        roundtrip(&Message::Interested),
        Message::Interested
    ));
}

#[test]
fn not_interested_roundtrip() {
    assert!(matches!(
        roundtrip(&Message::NotInterested),
        Message::NotInterested
    ));
}

#[test]
fn have_roundtrip() {
    let msg = Message::Have(1234567);
    if let Message::Have(idx) = roundtrip(&msg) {
        assert_eq!(idx, 1234567);
    } else {
        panic!("expected Have");
    }
}

#[test]
fn bitfield_roundtrip() {
    let bits = vec![0b10101010, 0b01010101];
    let msg = Message::Bitfield(bits.clone());
    if let Message::Bitfield(decoded) = roundtrip(&msg) {
        assert_eq!(decoded, bits);
    } else {
        panic!("expected Bitfield");
    }
}

#[test]
fn request_roundtrip() {
    let msg = Message::Request {
        index: 10,
        begin: 0,
        length: 16384,
    };
    if let Message::Request {
        index,
        begin,
        length,
    } = roundtrip(&msg)
    {
        assert_eq!(index, 10);
        assert_eq!(begin, 0);
        assert_eq!(length, 16384);
    } else {
        panic!("expected Request");
    }
}

#[test]
fn piece_roundtrip() {
    let data = Bytes::from(vec![0xABu8; 32]);
    let msg = Message::Piece {
        index: 5,
        begin: 512,
        data: data.clone(),
    };
    if let Message::Piece {
        index,
        begin,
        data: d,
    } = roundtrip(&msg)
    {
        assert_eq!(index, 5);
        assert_eq!(begin, 512);
        assert_eq!(&d[..], &data[..]);
    } else {
        panic!("expected Piece");
    }
}

#[test]
fn cancel_roundtrip() {
    let msg = Message::Cancel {
        index: 3,
        begin: 0,
        length: 16384,
    };
    if let Message::Cancel {
        index,
        begin,
        length,
    } = roundtrip(&msg)
    {
        assert_eq!(index, 3);
        assert_eq!(begin, 0);
        assert_eq!(length, 16384);
    } else {
        panic!("expected Cancel");
    }
}

#[test]
fn port_roundtrip() {
    let msg = Message::Port(6881);
    if let Message::Port(p) = roundtrip(&msg) {
        assert_eq!(p, 6881);
    } else {
        panic!("expected Port");
    }
}

#[test]
fn extension_roundtrip() {
    let payload = Bytes::from(vec![0x01, 0x02, 0x03]);
    let msg = Message::Extension {
        ext_id: 7,
        payload: payload.clone(),
    };
    if let Message::Extension { ext_id, payload: p } = roundtrip(&msg) {
        assert_eq!(ext_id, 7);
        assert_eq!(&p[..], &payload[..]);
    } else {
        panic!("expected Extension");
    }
}

#[test]
fn unknown_id_decodes_as_unknown() {
    let decoded = Message::decode(99, &[]).unwrap();
    assert!(matches!(decoded, Message::Unknown(99)));
}

#[test]
fn have_payload_too_short_errors() {
    assert!(Message::decode(MSG_HAVE, &[0, 0]).is_err());
}

#[test]
fn request_payload_too_short_errors() {
    assert!(Message::decode(MSG_REQUEST, &[0u8; 4]).is_err());
}

#[test]
fn block_size_constant() {
    assert_eq!(BLOCK_SIZE, 16_384);
}

#[test]
fn wire_formats_are_exact() {
    assert_eq!(&Message::Unchoke.encode()[..], &[0, 0, 0, 1, 1]);
    assert_eq!(&Message::Have(0x01020304).encode()[..], &[0, 0, 0, 5, 4, 1, 2, 3, 4]);
    assert_eq!(
        &Message::Request {
            index: 1,
            begin: 2,
            length: 3
        }
        .encode()[..],
        &[0, 0, 0, 13, 6, 0, 0, 0, 1, 0, 0, 0, 2, 0, 0, 0, 3]
    );
    assert_eq!(
        &Message::Piece {
            index: 1,
            begin: 2,
            data: Bytes::from(vec![9, 9])
        }
        .encode()[..],
        &[0, 0, 0, 11, 7, 0, 0, 0, 1, 0, 0, 0, 2, 9, 9]
    );
    assert_eq!(&Message::Port(6881).encode()[..], &[0, 0, 0, 3, 9, 0x1A, 0xE1]);
    assert_eq!(
        &Message::Extension {
            ext_id: 3,
            payload: Bytes::from(vec![1])
        }
        .encode()[..],
        &[0, 0, 0, 3, 20, 3, 1]
    );
}

#[test]
fn short_payloads_name_their_message() {
    for (id, min) in [(4u8, 4usize), (6, 12), (7, 8), (8, 12), (9, 2), (20, 1)] {
        assert_eq!(
            Message::decode(id, &vec![0; min - 1]).unwrap_err(),
            Error::Peer(PeerError::MessageTooShort {
                id,
                len: min - 1,
                min
            })
        );
        assert!(Message::decode(id, &vec![0; min]).is_ok());
    }
}

#[test]
fn a_copy_of_a_message_is_the_same_message() {
    let m = Message::Piece {
        index: 1,
        begin: 2,
        data: Bytes::from(vec![5; 3]),
    };
    assert_eq!(m.clone().encode(), m.encode());
}

use stormdrain::error::{Error, PeerError};
use stormdrain::peer::conn::{FrameReader, MAX_MSG_LEN};
use stormdrain::peer::message::Message;

fn received(messages: &[Message]) -> FrameReader {
    let mut reader = FrameReader::new();
    for m in messages {
        reader.feed(&m.encode());
    }
    reader
}

#[test]
fn send_and_receive_choke() {
    let mut reader = received(&[Message::Choke]);
    let msg = reader.next_message().unwrap();
    assert!(matches!(msg, Some(Message::Choke)));
}

#[test]
fn send_and_receive_have() {
    let mut reader = received(&[Message::Have(42)]);
    let msg = reader.next_message().unwrap().unwrap();
    assert!(matches!(msg, Message::Have(42)));
}

#[test]
fn send_and_receive_keepalive() {
    let mut reader = received(&[Message::KeepAlive]);
    let msg = reader.next_message().unwrap();
    assert!(matches!(msg, Some(Message::KeepAlive)));
}

#[test]
fn multiple_messages_in_sequence() {
    let mut reader = received(&[Message::Interested, Message::Have(100), Message::Unchoke]);
    assert!(matches!(
        reader.next_message().unwrap(),
        Some(Message::Interested)
    ));
    assert!(matches!(
        reader.next_message().unwrap(),
        Some(Message::Have(100))
    ));
    assert!(matches!(
        reader.next_message().unwrap(),
        Some(Message::Unchoke)
    ));
    assert!(reader.next_message().unwrap().is_none());
    assert!(reader.end_of_stream().is_ok());
}

#[test]
fn a_message_may_arrive_byte_by_byte() {
    let wire = Message::Request {
        index: 7,
        begin: 16384,
        length: 16384,
    }
    .encode();
    let mut reader = FrameReader::new();
    for k in 0..wire.len() - 1 {
        reader.feed(&wire[k..k + 1]);
        assert!(reader.next_message().unwrap().is_none());
    }
    assert_eq!(
        reader.end_of_stream(),
        Err(Error::Peer(PeerError::ConnectionClosed))
    );
    reader.feed(&wire[wire.len() - 1..]);
    assert!(matches!(
        reader.next_message().unwrap(),
        Some(Message::Request {
            index: 7,
            begin: 16384,
            length: 16384
        })
    ));
    assert!(reader.end_of_stream().is_ok());
}

#[test]
fn an_oversized_message_is_an_error() {
    let mut reader = FrameReader::new();
    let n = MAX_MSG_LEN + 1;
    reader.feed(&n.to_be_bytes());
    assert_eq!(
        reader.next_message().unwrap_err(),
        Error::Peer(PeerError::OversizedMessage { bytes: n })
    );

    let mut reader = FrameReader::new();
    reader.feed(&MAX_MSG_LEN.to_be_bytes());
    assert!(reader.next_message().unwrap().is_none());
}

#[test]
fn a_short_payload_is_an_error() {
    let mut reader = FrameReader::new();
    reader.feed(&[0, 0, 0, 3, 4, 0, 0]);
    assert_eq!(
        reader.next_message().unwrap_err(),
        Error::Peer(PeerError::MessageTooShort {
            id: 4,
            len: 2,
            min: 4
        })
    );
}

#[test]
fn a_stream_may_be_cut_anywhere() {
    let sent = [
        Message::Interested,
        Message::KeepAlive,
        Message::Have(100),
        Message::Bitfield(vec![0xA0, 0x01]),
        Message::Unchoke,
    ];
    let mut stream = Vec::new();
    for m in &sent {
        stream.extend_from_slice(&m.encode());
    }
    let expected: Vec<Vec<u8>> = sent.iter().map(|m| m.encode().to_vec()).collect();
    for size in 1..stream.len() + 1 {
        let mut reader = FrameReader::new();
        let mut got = Vec::new();
        for read in stream.chunks(size) {
            reader.feed(read);
            while let Some(m) = reader.next_message().unwrap() {
                got.push(m.encode().to_vec());
            }
        }
        assert_eq!(got, expected);
        assert!(reader.end_of_stream().is_ok());
    }
    for end in 1..stream.len() {
        let mut reader = FrameReader::new();
        reader.feed(&stream[..end]);
        let mut count = 0;
        let mut used = 0;
        while let Some(m) = reader.next_message().unwrap() {
            used += m.encode().len();
            count += 1;
        }
        assert!(used <= end && count < sent.len());
        assert_eq!(reader.end_of_stream().is_ok(), used == end);
    }
}

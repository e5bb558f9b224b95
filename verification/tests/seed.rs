use stormdrain::error::PeerError;
use stormdrain::metainfo::Metainfo;
use stormdrain::peer::message::Message;
use stormdrain::piece_manager::PieceManager;
use stormdrain::seed::{full_bitfield, opening, piece_reply, serve, time_is_up, ServeAction};

fn torrent() -> Metainfo {
    let mut v = b"d4:infod6:lengthi300000e4:name1:x12:piece lengthi200000e6:pieces40:".to_vec();
    v.extend_from_slice(&[0; 40]);
    v.extend_from_slice(b"ee");
    Metainfo::from_bytes(&v).unwrap()
}

fn request(index: u32, begin: u32, length: u32) -> Option<Message> {
    Some(Message::Request {
        index,
        begin,
        length,
    })
}

#[test]
fn a_request_is_answered_from_the_stream() {
    let meta = torrent();
    assert!(matches!(
        serve(&meta, &request(1, 16384, 16384)),
        ServeAction::Reply {
            index: 1,
            begin: 16384,
            length: 16384,
            offset: 216384
        }
    ));
    assert!(matches!(
        serve(&meta, &request(1, 83616, 16384)),
        ServeAction::Reply { .. }
    ));
}

#[test]
fn bad_requests_are_refused() {
    let meta = torrent();
    for bad in [request(2, 0, 1), request(0, 0, 0), request(0, 0, 131073)] {
        assert!(matches!(
            serve(&meta, &bad),
            ServeAction::Fail(PeerError::InvalidRequest)
        ));
    }
    for bad in [request(1, 83617, 16384), request(0, u32::MAX, 16384)] {
        assert!(matches!(
            serve(&meta, &bad),
            ServeAction::Fail(PeerError::RequestOutOfBounds)
        ));
    }
    assert!(matches!(
        serve(&meta, &request(0, 0, 131072)),
        ServeAction::Reply { .. }
    ));
}

#[test]
fn other_messages() {
    let meta = torrent();
    assert!(matches!(
        serve(&meta, &Some(Message::Interested)),
        ServeAction::Send(Message::Unchoke)
    ));
    assert!(matches!(
        serve(&meta, &Some(Message::KeepAlive)),
        ServeAction::Wait
    ));
    assert!(matches!(
        serve(&meta, &Some(Message::Have(1))),
        ServeAction::Wait
    ));
    assert!(matches!(
        serve(&meta, &Some(Message::Choke)),
        ServeAction::End
    ));
    assert!(matches!(
        serve(&meta, &Some(Message::NotInterested)),
        ServeAction::End
    ));
    assert!(matches!(serve(&meta, &None), ServeAction::End));
}

#[test]
fn the_opening_shows_every_piece() {
    let meta = torrent();
    let messages = opening(&meta);
    assert_eq!(messages.len(), 2);
    match &messages[0] {
        Message::Bitfield(bits) => assert_eq!(bits, &vec![0b1100_0000]),
        _ => panic!("expected Bitfield"),
    }
    assert!(matches!(messages[1], Message::Unchoke));
}

#[test]
fn a_full_bitfield_is_read_as_everything() {
    for n in [0u32, 1, 7, 8, 9, 16, 17, 100] {
        let bits = full_bitfield(n);
        assert_eq!(bits.len(), (n as usize + 7) / 8);
        let has = PieceManager::bitfield_to_vec(&bits, n);
        assert!(has.iter().all(|b| *b));
        let ones: u32 = bits.iter().map(|b| b.count_ones()).sum();
        assert_eq!(ones, n);
    }
}

#[test]
fn the_reply_carries_the_data() {
    match piece_reply(4, 16384, vec![1, 2, 3]) {
        Message::Piece { index, begin, data } => {
            assert_eq!((index, begin), (4, 16384));
            assert_eq!(&data[..], &[1, 2, 3]);
        }
        _ => panic!("expected Piece"),
    }
}

#[test]
fn seeding_may_have_a_time_limit() {
    assert!(!time_is_up(u128::MAX, None));
    assert!(!time_is_up(9, Some(10)));
    assert!(time_is_up(10, Some(10)));
}

use stormdrain::bencode::{bencode_encode, decode};
use stormdrain::error::{BencodeError, Error, PeerError};
use stormdrain::metainfo::Metainfo;
use stormdrain::peer::handshake::PeerCapabilities;
use stormdrain::peer::metadata_exchange::{
    build_ext_handshake, build_metadata_request, check_metadata, find_bencode_end,
    parse_ext_handshake, parse_metadata_piece, verify_metadata, FetchAction, MetadataFetch,
    METADATA_PIECE_SIZE, UT_METADATA_EXT_ID,
};
use stormdrain::peer::mse::sha1_hash;
use stormdrain::types::InfoHash;

fn info_bytes(pieces: usize) -> Vec<u8> {
    let mut v = b"d6:lengthi100e4:name4:data12:piece lengthi1e6:pieces".to_vec();
    v.extend_from_slice(format!("{}:", 20 * pieces).as_bytes());
    for i in 0..20 * pieces {
        v.push((i % 251) as u8);
    }
    v.push(b'e');
    v
}

fn piece_message(i: usize, size: usize, data: &[u8]) -> Vec<u8> {
    let mut v = format!("d8:msg_typei1e5:piecei{i}e10:total_sizei{size}ee").into_bytes();
    v.extend_from_slice(data);
    v
}

fn with_extensions() -> PeerCapabilities {
    PeerCapabilities {
        extension_protocol: true,
        dht: false,
        fast: false,
    }
}

#[test]
fn extension_handshake_is_exact() {
    assert_eq!(
        build_ext_handshake(),
        b"d1:md11:ut_metadatai1ee4:reqqi500ee".to_vec()
    );
    let v = decode(&build_ext_handshake()).unwrap();
    assert_eq!(bencode_encode(&v), build_ext_handshake());
}

#[test]
fn extension_handshake_is_read() {
    assert_eq!(
        parse_ext_handshake(b"d1:md11:ut_metadatai3ee13:metadata_sizei31235ee").unwrap(),
        (3, 31235)
    );
    assert_eq!(parse_ext_handshake(b"de").unwrap(), (0, 0));
    assert!(parse_ext_handshake(b"d1:m").is_err());
}

#[test]
fn metadata_request_is_exact() {
    assert_eq!(
        build_metadata_request(12),
        b"d8:msg_typei0e5:piecei12ee".to_vec()
    );
}

#[test]
fn the_end_of_a_value_is_found() {
    assert_eq!(find_bencode_end(b"d3:keyli1ei2eeerest").unwrap(), 15);
    assert_eq!(find_bencode_end(b"4:spamrest").unwrap(), 6);
    assert_eq!(find_bencode_end(b"i42e").unwrap(), 4);
    let fails = |data: &[u8], e: BencodeError| {
        assert_eq!(find_bencode_end(data).unwrap_err(), Error::Bencode(e));
    };
    fails(b"", BencodeError::EmptyPayload);
    fails(b"d", BencodeError::UnterminatedDict);
    fails(b"l", BencodeError::UnterminatedList);
    fails(b"i12", BencodeError::UnterminatedInt);
    fails(b"12", BencodeError::MissingColon);
    fails(b"1x:a", BencodeError::InvalidStringLength);
    fails(b"x", BencodeError::UnexpectedToken);
    fails(b"9:abc", BencodeError::StringPastEnd);
}

#[test]
fn metadata_piece_is_split_from_its_header() {
    let msg = piece_message(1, 20000, b"payload");
    assert_eq!(
        parse_metadata_piece(&msg, 20000).unwrap(),
        Some((1, b"payload".to_vec()))
    );
    // No such piece, a request, and a rejection.
    assert_eq!(parse_metadata_piece(&msg, 16384).unwrap(), None);
    assert_eq!(
        parse_metadata_piece(b"d8:msg_typei0e5:piecei0ee", 100).unwrap(),
        None
    );
    assert_eq!(
        parse_metadata_piece(b"d8:msg_typei2e5:piecei0ee", 100).unwrap(),
        None
    );
    assert_eq!(parse_metadata_piece(b"de", 100).unwrap(), None);
}

#[test]
fn metadata_is_fetched_piece_by_piece() {
    let info = info_bytes(1000);
    assert!(info.len() > METADATA_PIECE_SIZE);
    let hash = InfoHash(sha1_hash(&[&info]));
    let mut fetch = MetadataFetch::start(hash, with_extensions()).unwrap();
    assert!(fetch.next_request().is_none());
    assert!(matches!(
        fetch.on_extension(5, b"ignored").unwrap(),
        FetchAction::Wait
    ));
    let hello = format!("d1:md11:ut_metadatai9ee13:metadata_sizei{}ee", info.len());
    assert!(matches!(
        fetch.on_extension(0, hello.as_bytes()).unwrap(),
        FetchAction::Request
    ));
    assert_eq!(
        fetch.next_request(),
        Some((9, build_metadata_request(0)))
    );
    assert_eq!(
        fetch.next_request(),
        Some((9, build_metadata_request(1)))
    );
    assert!(fetch.next_request().is_none());
    let (first, second) = info.split_at(METADATA_PIECE_SIZE);
    assert!(matches!(
        fetch
            .on_extension(UT_METADATA_EXT_ID, &piece_message(1, info.len(), second))
            .unwrap(),
        FetchAction::Wait
    ));
    assert!(matches!(
        fetch
            .on_extension(UT_METADATA_EXT_ID, &piece_message(1, info.len(), b"again"))
            .unwrap(),
        FetchAction::Wait
    ));
    match fetch
        .on_extension(UT_METADATA_EXT_ID, &piece_message(0, info.len(), first))
        .unwrap()
    {
        FetchAction::Done(meta) => {
            assert_eq!(meta.info_hash, hash);
            assert_eq!(meta.name, "data");
            assert_eq!(meta.piece_count(), 1000);
        }
        _ => panic!("expected the metadata"),
    }
}

#[test]
fn fetching_fails_without_support() {
    let none = PeerCapabilities {
        extension_protocol: false,
        dht: true,
        fast: true,
    };
    assert_eq!(
        MetadataFetch::start(InfoHash([0; 20]), none).err().unwrap(),
        Error::Peer(PeerError::NoExtensionProtocol)
    );
    let fails = |hello: &[u8], e: PeerError| {
        let mut fetch = MetadataFetch::start(InfoHash([0; 20]), with_extensions()).unwrap();
        assert_eq!(fetch.on_extension(0, hello).err().unwrap(), Error::Peer(e));
    };
    fails(b"d13:metadata_sizei10ee", PeerError::NoUtMetadata);
    fails(b"d1:md11:ut_metadatai1eee", PeerError::EmptyMetadata);
    fails(
        b"d1:md11:ut_metadatai1ee13:metadata_sizei-1ee",
        PeerError::MetadataTooLarge,
    );
}

#[test]
fn wrong_metadata_is_refused() {
    let info = info_bytes(1);
    assert_eq!(
        verify_metadata(&info, &InfoHash([0; 20])).err().unwrap(),
        Error::Peer(PeerError::MetadataMismatch)
    );
    assert_eq!(
        check_metadata(&info, &[1; 20], &InfoHash([2; 20])).err().unwrap(),
        Error::Peer(PeerError::MetadataMismatch)
    );
    let meta = check_metadata(&info, &[2; 20], &InfoHash([2; 20])).unwrap();
    assert_eq!(meta.info_hash, InfoHash([2; 20]));
    let real = verify_metadata(&info, &InfoHash(sha1_hash(&[&info]))).unwrap();
    assert_eq!(real.name, "data");
}

#[test]
fn metadata_and_torrent_file_describe_the_same() {
    let info = info_bytes(3);
    let mut torrent = b"d4:info".to_vec();
    torrent.extend_from_slice(&info);
    torrent.push(b'e');
    let from_file = Metainfo::from_bytes(&torrent).unwrap();
    let from_peer = verify_metadata(&info, &from_file.info_hash).unwrap();
    assert_eq!(from_peer.name, from_file.name);
    assert_eq!(from_peer.piece_hashes, from_file.piece_hashes);
    assert_eq!(from_peer.total_length, from_file.total_length);
}

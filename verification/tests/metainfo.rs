use stormdrain::bencode::decode_torrent;
use stormdrain::magnet::MagnetLink;
use stormdrain::error::{Error, TorrentError};
use stormdrain::metainfo::{sanitize_path_component, Metainfo};
use stormdrain::peer::mse::sha1_hash;
use stormdrain::types::InfoHash;

/// Build a minimal single-file torrent bencoded blob.
///
/// Keys are sorted as required by bencode:
///   outer: `announce` < `info`
///   info:  `length` < `name` < `piece length` < `pieces`
fn minimal_torrent_bytes(
    name: &str,
    length: u64,
    piece_length: u64,
    piece_hash: [u8; 20],
) -> Vec<u8> {
    let mut v: Vec<u8> = Vec::new();
    v.extend_from_slice(b"d");
    // announce
    let announce = "http://tracker.example.com/ann";
    v.extend_from_slice(format!("8:announce{}:{}", announce.len(), announce).as_bytes());
    // info dict
    v.extend_from_slice(b"4:infod");
    v.extend_from_slice(format!("6:lengthi{}e", length).as_bytes());
    v.extend_from_slice(format!("4:name{}:{}", name.len(), name).as_bytes());
    v.extend_from_slice(format!("12:piece lengthi{}e", piece_length).as_bytes());
    v.extend_from_slice(b"6:pieces20:");
    v.extend_from_slice(&piece_hash);
    v.extend_from_slice(b"e"); // end info dict
    v.extend_from_slice(b"e"); // end outer dict
    v
}

#[test]
fn from_bytes_single_file_basic() {
    let data = minimal_torrent_bytes("test.txt", 65536, 65536, [0u8; 20]);
    let meta = Metainfo::from_bytes(&data).unwrap();
    assert_eq!(meta.name, "test.txt");
    assert_eq!(meta.total_length, 65536);
    assert_eq!(meta.piece_length, 65536);
    assert_eq!(meta.piece_hashes.len(), 1);
    assert_eq!(meta.piece_hashes[0], [0u8; 20]);
    assert_eq!(meta.files.len(), 1);
    assert_eq!(meta.files[0].length, 65536);
    assert_eq!(meta.files[0].offset, 0);
    assert!(!meta.is_private);
}

#[test]
fn from_bytes_stores_announce_tracker() {
    let data = minimal_torrent_bytes("file.bin", 512, 512, [1u8; 20]);
    let meta = Metainfo::from_bytes(&data).unwrap();
    // At least one tier with the announce URL.
    assert!(!meta.trackers.is_empty());
    assert!(meta.trackers[0]
        .iter()
        .any(|u| u.contains("tracker.example.com")));
}

#[test]
fn piece_count_matches_hashes_len() {
    let data = minimal_torrent_bytes("x", 1024, 1024, [0u8; 20]);
    let meta = Metainfo::from_bytes(&data).unwrap();
    assert_eq!(meta.piece_count(), 1);
}

#[test]
fn piece_len_normal_and_last() {
    let _data = minimal_torrent_bytes("x", 1500, 1000, [0u8; 20]);
    // Note: pieces field has only 20 bytes (1 hash), but total=1500, piece_len=1000 →
    // 2 pieces. For a valid torrent we'd need 2 hashes; but from_bytes only checks
    // pieces.len() % 20 == 0, so we supply 2 hashes.
    let mut v: Vec<u8> = Vec::new();
    v.extend_from_slice(b"d");
    let announce = "http://tracker.example.com/ann";
    v.extend_from_slice(format!("8:announce{}:{}", announce.len(), announce).as_bytes());
    v.extend_from_slice(b"4:infod");
    v.extend_from_slice(b"6:lengthi1500e");
    v.extend_from_slice(b"4:name1:x");
    v.extend_from_slice(b"12:piece lengthi1000e");
    v.extend_from_slice(b"6:pieces40:"); // 40 bytes = 2 hashes
    v.extend_from_slice(&[0u8; 40]);
    v.extend_from_slice(b"e");
    v.extend_from_slice(b"e");
    let meta = Metainfo::from_bytes(&v).unwrap();
    assert_eq!(meta.piece_len(0), 1000);
    assert_eq!(meta.piece_len(1), 500); // 1500 % 1000 = 500
}

#[test]
fn piece_len_last_is_full_when_exact_multiple() {
    // total = 2000, piece_length = 1000 → last piece = 1000.
    let mut v: Vec<u8> = Vec::new();
    v.extend_from_slice(b"d");
    let announce = "http://tracker.example.com/ann";
    v.extend_from_slice(format!("8:announce{}:{}", announce.len(), announce).as_bytes());
    v.extend_from_slice(b"4:infod");
    v.extend_from_slice(b"6:lengthi2000e");
    v.extend_from_slice(b"4:name1:x");
    v.extend_from_slice(b"12:piece lengthi1000e");
    v.extend_from_slice(b"6:pieces40:");
    v.extend_from_slice(&[0u8; 40]);
    v.extend_from_slice(b"e");
    v.extend_from_slice(b"e");
    let meta = Metainfo::from_bytes(&v).unwrap();
    assert_eq!(meta.piece_len(1), 1000);
}

#[test]
fn from_info_bytes_applies_provided_info_hash() {
    let data = minimal_torrent_bytes("test.txt", 65536, 65536, [0u8; 20]);
    let meta_orig = Metainfo::from_bytes(&data).unwrap();
    // Extract the raw info bytes from the torrent.
    let (_, range) = decode_torrent(&data).unwrap();
    let (start, end) = range.unwrap();
    let info_bytes = &data[start..end];
    // Provide a custom info_hash (overrides computed SHA-1).
    let custom_hash = InfoHash([42u8; 20]);
    let meta2 = Metainfo::from_info_bytes(info_bytes, &custom_hash).unwrap();
    assert_eq!(meta2.info_hash, custom_hash);
    assert_eq!(meta2.name, meta_orig.name);
}

#[test]
fn placeholder_magnet_uses_magnet_fields() {
    let uri = "magnet:?xt=urn:btih:aabbccddaabbccddaabbccddaabbccddaabbccdd&dn=MyFile&tr=http%3A%2F%2Ftracker.example.com%2Fann";
    let link = MagnetLink::parse(uri).unwrap();
    let meta = Metainfo::placeholder_magnet(&link);
    assert_eq!(meta.info_hash, link.info_hash);
    assert_eq!(meta.name, "MyFile");
    assert_eq!(meta.total_length, 0);
    assert!(meta.piece_hashes.is_empty());
    assert_eq!(meta.trackers.len(), 1);
}

#[test]
fn sanitize_strips_dangerous_chars() {
    // Test via `name` field in a torrent: dangerous chars should become '_'.
    let raw_name = "foo/bar\\baz:file";
    let data = minimal_torrent_bytes(raw_name, 100, 100, [0u8; 20]);
    let meta = Metainfo::from_bytes(&data).unwrap();
    assert!(!meta.name.contains('/'));
    assert!(!meta.name.contains('\\'));
    assert!(!meta.name.contains(':'));
}

#[test]
fn sanitize_dot_dot_becomes_underscore() {
    let data = minimal_torrent_bytes("..", 100, 100, [0u8; 20]);
    let meta = Metainfo::from_bytes(&data).unwrap();
    assert_eq!(meta.name, "_");
}

#[test]
fn missing_info_key_errors() {
    let data = b"d4:name4:teste";
    assert!(Metainfo::from_bytes(data).is_err());
}

#[test]
fn pieces_not_multiple_of_20_errors() {
    let mut v: Vec<u8> = Vec::new();
    v.extend_from_slice(b"d");
    let announce = "http://tracker.example.com/ann";
    v.extend_from_slice(format!("8:announce{}:{}", announce.len(), announce).as_bytes());
    v.extend_from_slice(b"4:infod");
    v.extend_from_slice(b"6:lengthi100e");
    v.extend_from_slice(b"4:name4:test");
    v.extend_from_slice(b"12:piece lengthi100e");
    v.extend_from_slice(b"6:pieces5:hello"); // 5 bytes, not multiple of 20
    v.extend_from_slice(b"e");
    v.extend_from_slice(b"e");
    assert!(Metainfo::from_bytes(&v).is_err());
}

fn torrent_with_info(info: &str) -> Vec<u8> {
    format!("d4:info{info}e").into_bytes()
}

#[test]
fn multi_file_torrent_is_laid_out_in_order() {
    let info = format!(
        "d5:filesld6:lengthi3e4:pathl1:a1:beed6:lengthi4e4:pathl2:..eee4:name3:top12:piece lengthi4e6:pieces40:{}7:privatei1ee",
        "x".repeat(40)
    );
    let data = torrent_with_info(&info);
    let meta = Metainfo::from_bytes(&data).unwrap();
    assert_eq!(meta.total_length, 7);
    assert_eq!(meta.files.len(), 2);
    assert_eq!(meta.files[0].path, vec!["top", "a", "b"]);
    assert_eq!(meta.files[0].offset, 0);
    assert_eq!(meta.files[1].path, vec!["top", "_"]);
    assert_eq!(meta.files[1].offset, 3);
    assert_eq!(meta.files[1].length, 4);
    assert!(meta.is_private);
    assert!(meta.is_addressable());
    assert!(meta.is_downloadable());
    assert_eq!(meta.piece_len(0) + meta.piece_len(1), 7);
}

#[test]
fn info_hash_is_the_digest_of_the_info_dict() {
    let info = format!(
        "d6:lengthi1e4:name1:x12:piece lengthi1e6:pieces20:{}e",
        "y".repeat(20)
    );
    let meta = Metainfo::from_bytes(&torrent_with_info(&info)).unwrap();
    assert_eq!(
        meta.info_hash,
        InfoHash(sha1_hash(&[info.as_bytes()]))
    );
}

#[test]
fn torrent_errors_name_their_cause() {
    let fails = |info: &str, e: TorrentError| {
        assert_eq!(
            Metainfo::from_bytes(&torrent_with_info(info)).err().unwrap(),
            Error::InvalidTorrent(e)
        );
    };
    assert_eq!(
        Metainfo::from_bytes(b"d4:name4:teste").err().unwrap(),
        Error::InvalidTorrent(TorrentError::MissingInfo)
    );
    fails("de", TorrentError::MissingPieceLength);
    fails("d12:piece lengthi1ee", TorrentError::MissingPieces);
    fails(
        "d12:piece lengthi1e6:pieces5:helloe",
        TorrentError::PiecesLength { len: 5 },
    );
    fails(
        "d6:length1:x12:piece lengthi1e6:pieces0:e",
        TorrentError::LengthNotInteger,
    );
    fails(
        "d12:piece lengthi1e6:pieces0:e",
        TorrentError::MissingFiles,
    );
}

#[test]
fn file_entry_errors_name_their_cause() {
    let fails = |files: &str, e: TorrentError| {
        let info = format!("d5:files{files}12:piece lengthi1e6:pieces0:e");
        assert_eq!(
            Metainfo::from_bytes(&torrent_with_info(&info)).err().unwrap(),
            Error::InvalidTorrent(e)
        );
    };
    fails("ld4:pathl1:aeee", TorrentError::FileMissingLength);
    fails("ld6:lengthi1eee", TorrentError::FileMissingPath);
    fails(
        "ld6:lengthi1e4:pathli1eeee",
        TorrentError::PathNotString,
    );
    fails(
        "ld6:lengthi-1e4:pathl1:aeed6:lengthi1e4:pathl1:beee",
        TorrentError::SizeOverflow,
    );
}

#[test]
fn announce_comes_first_in_the_first_tier() {
    let info = "d6:lengthi1e4:name1:x12:piece lengthi1e6:pieces0:e";
    let data = format!("d8:announce1:a13:announce-listll1:b1:cel1:dee7:comment2:hi10:created by2:me4:info{info}e");
    let meta = Metainfo::from_bytes(data.as_bytes()).unwrap();
    assert_eq!(meta.trackers, vec![vec!["a", "b", "c"], vec!["d"]]);
    assert_eq!(meta.comment.as_deref(), Some("hi"));
    assert_eq!(meta.created_by.as_deref(), Some("me"));
}

#[test]
fn path_components_are_made_safe() {
    for (raw, safe) in [
        ("plain.txt", "plain.txt"),
        ("a/b\\c:d*e?f\"g<h>i|j\0", "a_b_c_d_e_f_g_h_i_j_"),
        ("..", "_"),
        (".", "_"),
        ("", ""),
        ("...", "..."),
    ] {
        assert_eq!(sanitize_path_component(raw), safe);
    }
}

#[test]
fn a_torrent_without_piece_length_cannot_be_downloaded() {
    let info = "d6:lengthi1e4:name1:x12:piece lengthi0e6:pieces0:e";
    let meta = Metainfo::from_bytes(&torrent_with_info(info)).unwrap();
    assert!(!meta.is_addressable());
    assert!(!meta.is_downloadable());
}

#[test]
fn only_the_pieces_themselves_must_not_be_too_long() {
    let torrent = |length: u64, pieces: usize| {
        let info = format!(
            "d6:lengthi{length}e4:name1:x12:piece lengthi4294967297e6:pieces{}:{}e",
            pieces * 20,
            "x".repeat(pieces * 20)
        );
        Metainfo::from_bytes(&torrent_with_info(&info)).unwrap()
    };
    let small = torrent(5, 1);
    assert_eq!(small.piece_len(0), 5);
    assert!(small.is_downloadable());
    assert!(!torrent(4294967297, 1).is_downloadable());
    let two = torrent(4294967300, 2);
    assert!(two.is_addressable());
    assert!(!two.is_downloadable());
}

#[test]
fn the_name_of_a_link_is_made_safe() {
    let uri = "magnet:?xt=urn:btih:aabbccddaabbccddaabbccddaabbccddaabbccdd&dn=a%2Fb";
    let link = MagnetLink::parse(uri).unwrap();
    assert_eq!(link.name.as_deref(), Some("a/b"));
    assert_eq!(Metainfo::placeholder_magnet(&link).name, "a_b");
}

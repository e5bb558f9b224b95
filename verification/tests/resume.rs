use stormdrain::metainfo::Metainfo;
use stormdrain::peer::mse::sha1_hash;
use stormdrain::piece_manager::PieceManager;
use stormdrain::resume::{accept_digest, piece_range, verify_piece, ResumeState, Verification};
use stormdrain::types::InfoHash;

fn torrent() -> Metainfo {
    let mut v = b"d4:infod6:lengthi25e4:name1:x12:piece lengthi10e6:pieces60:".to_vec();
    v.extend_from_slice(&sha1_hash(&[&[0; 10]]));
    v.extend_from_slice(&sha1_hash(&[&[1; 10]]));
    v.extend_from_slice(&sha1_hash(&[&[2; 5]]));
    v.extend_from_slice(b"ee");
    Metainfo::from_bytes(&v).unwrap()
}

#[test]
fn resume_state_default_is_empty() {
    let s = ResumeState::default();
    assert!(s.pieces_done.is_empty());
    assert_eq!(s.downloaded, 0);
    assert_eq!(s.uploaded, 0);
}

#[test]
fn a_fresh_state_names_its_torrent() {
    let s = ResumeState::fresh(&InfoHash([0xAB; 20]));
    assert_eq!(s.info_hash, "ab".repeat(20));
    assert!(s.pieces_done.is_empty());
    assert_eq!(
        ResumeState::file_name(&s.info_hash),
        format!("{}.json", "ab".repeat(20))
    );
}

#[test]
fn a_checkpoint_lists_the_done_pieces() {
    let mut pm = PieceManager::new(3, 10, 25);
    pm.mark_done(2, 5);
    pm.mark_done(0, 10);
    let s = ResumeState::checkpoint(&InfoHash([1; 20]), &pm, 7);
    assert_eq!(s.pieces_done, vec![0, 2]);
    assert_eq!(s.downloaded, 15);
    assert_eq!(s.uploaded, 7);
}

#[test]
fn ranges_of_pieces() {
    let meta = torrent();
    let last = piece_range(&meta, 2).unwrap();
    assert_eq!((last.offset, last.len), (20, 5));
    assert!(piece_range(&meta, 3).is_none());
}

#[test]
fn intact_pieces_are_restored() {
    let meta = torrent();
    let mut pm = PieceManager::new(3, 10, 25);
    let state = ResumeState {
        info_hash: meta.info_hash.to_hex(),
        pieces_done: vec![0, 9, 2, 1],
        downloaded: 25,
        uploaded: 0,
    };
    let mut v = Verification::start();
    let mut seen = Vec::new();
    while let Some(p) = v.next(&state, &meta) {
        seen.push((p.index, p.range.offset, p.segments.len()));
        let data = match p.index {
            0 => Some(vec![0u8; 10]),
            2 => Some(vec![3u8; 5]),
            _ => None,
        };
        v.on_read(&mut pm, &meta, p.index, &data);
    }
    assert_eq!(seen, vec![(0, 0, 1), (2, 20, 1), (1, 10, 1)]);
    assert_eq!(v.verified(), 1);
    assert!(!pm.needs(0));
    assert!(pm.needs(1));
    assert!(pm.needs(2));
    assert_eq!(pm.downloaded, 10);
}

#[test]
fn a_checkpoint_restores_its_download() {
    let meta = torrent();
    let mut pm = PieceManager::new(3, 10, 25);
    pm.mark_done(1, 10);
    pm.mark_done(2, 5);
    let saved = ResumeState::checkpoint(&meta.info_hash, &pm, 0);
    let mut again = PieceManager::new(3, 10, 25);
    for i in saved.pieces_done {
        let len = meta.piece_len(i) as usize;
        assert!(verify_piece(&mut again, &meta, i, &vec![i as u8; len]));
    }
    assert_eq!(again.downloaded, saved.downloaded);
    assert_eq!(again.build_bitfield(), pm.build_bitfield());
}

#[test]
fn the_digest_of_a_piece_decides() {
    let meta = torrent();
    let mut pm = PieceManager::new(3, 10, 25);
    assert!(!accept_digest(&mut pm, &meta, 1, &[0; 20]));
    assert!(pm.needs(1));
    let right = meta.piece_hashes[1];
    assert!(accept_digest(&mut pm, &meta, 1, &right));
    assert!(!pm.needs(1));
    assert_eq!(pm.downloaded, 10);
}

#[test]
fn a_huge_piece_is_read_whole() {
    let len: u64 = 5 << 32;
    let mut v = format!("d4:infod6:lengthi{len}e4:name1:x12:piece lengthi{len}e6:pieces20:")
        .into_bytes();
    v.extend_from_slice(&[0; 20]);
    v.extend_from_slice(b"ee");
    let meta = Metainfo::from_bytes(&v).unwrap();
    let state = ResumeState {
        info_hash: meta.info_hash.to_hex(),
        pieces_done: vec![0],
        downloaded: len,
        uploaded: 0,
    };
    let piece = Verification::start().next(&state, &meta).unwrap();
    assert_eq!(piece.range.len, len);
    assert_eq!(piece.segments.len(), 1);
    assert_eq!((piece.segments[0].start, piece.segments[0].end), (0, len));
}

#[test]
fn pieces_of_a_smaller_manager_are_counted() {
    let meta = torrent();
    let mut pm = PieceManager::new(1, 10, 10);
    assert!(verify_piece(&mut pm, &meta, 1, &[1; 10]));
    assert_eq!(pm.downloaded, 0);
    assert!(verify_piece(&mut pm, &meta, 0, &[0; 10]));
    assert_eq!(pm.downloaded, 10);
}

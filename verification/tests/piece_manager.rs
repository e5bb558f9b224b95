use stormdrain::piece_manager::PieceManager;

fn make_pm(pieces: u32, piece_len: u64, total: u64) -> PieceManager {
    PieceManager::new(pieces, piece_len, total)
}

#[test]
fn new_has_correct_piece_count() {
    let pm = make_pm(5, 512, 2560);
    assert_eq!(pm.piece_count(), 5);
}

#[test]
fn new_is_not_complete() {
    let pm = make_pm(3, 256, 768);
    assert!(!pm.is_complete());
}

#[test]
fn zero_pieces_is_complete() {
    let pm = make_pm(0, 256, 0);
    assert!(pm.is_complete());
}

#[test]
fn claim_piece_returns_index_when_peer_has_it() {
    let mut pm = make_pm(3, 256, 768);
    let bitfield = vec![false, true, false];
    assert_eq!(pm.claim_piece(&bitfield), Some(1));
}

#[test]
fn claim_piece_returns_none_when_peer_has_nothing() {
    let mut pm = make_pm(3, 256, 768);
    let bitfield = vec![false; 3];
    assert_eq!(pm.claim_piece(&bitfield), None);
}

#[test]
fn claim_piece_does_not_double_claim() {
    let mut pm = make_pm(2, 256, 512);
    let bitfield = vec![true, true];
    assert_eq!(pm.claim_piece(&bitfield), Some(0));
    // Piece 0 is now Claimed; next claim should give piece 1.
    assert_eq!(pm.claim_piece(&bitfield), Some(1));
    // No more pieces to claim.
    assert_eq!(pm.claim_piece(&bitfield), None);
}

#[test]
fn return_piece_makes_it_reclaimable() {
    let mut pm = make_pm(2, 256, 512);
    let bf = vec![true, true];
    pm.claim_piece(&bf);
    pm.return_piece(0);
    assert_eq!(pm.claim_piece(&bf), Some(0));
}

#[test]
fn mark_done_increments_done_count() {
    let mut pm = make_pm(3, 256, 768);
    let bf = vec![true; 3];
    pm.claim_piece(&bf);
    pm.mark_done(0, 256);
    assert_eq!(pm.done_count(), 1);
    assert!(!pm.needs(0));
}

#[test]
fn mark_done_updates_downloaded() {
    let mut pm = make_pm(2, 512, 1024);
    let bf = vec![true; 2];
    pm.claim_piece(&bf);
    pm.mark_done(0, 512);
    assert_eq!(pm.downloaded, 512);
}

#[test]
fn mark_done_idempotent() {
    let mut pm = make_pm(2, 512, 1024);
    let bf = vec![true; 2];
    pm.claim_piece(&bf);
    pm.mark_done(0, 512);
    pm.mark_done(0, 512); // second call should not double-count
    assert_eq!(pm.done_count(), 1);
    assert_eq!(pm.downloaded, 512);
}

#[test]
fn mark_done_without_prior_claim() {
    let mut pm = make_pm(3, 256, 768);
    pm.mark_done(2, 256);
    assert_eq!(pm.done_count(), 1);
    assert!(!pm.needs(2));
}

#[test]
fn is_complete_after_all_done() {
    let mut pm = make_pm(2, 512, 1024);
    let bf = vec![true; 2];
    pm.claim_piece(&bf);
    pm.mark_done(0, 512);
    pm.claim_piece(&bf);
    pm.mark_done(1, 512);
    assert!(pm.is_complete());
}

#[test]
fn piece_len_normal_piece() {
    let pm = make_pm(3, 1000, 2500);
    assert_eq!(pm.piece_len(0), 1000);
    assert_eq!(pm.piece_len(1), 1000);
}

#[test]
fn piece_len_last_piece_with_remainder() {
    let pm = make_pm(3, 1000, 2500);
    // Last piece: 2500 % 1000 = 500
    assert_eq!(pm.piece_len(2), 500);
}

#[test]
fn piece_len_last_piece_exact_multiple() {
    let pm = make_pm(3, 1000, 3000);
    // 3000 % 1000 == 0, so last piece = piece_length
    assert_eq!(pm.piece_len(2), 1000);
}

#[test]
fn needed_count_decreases_on_done() {
    let mut pm = make_pm(4, 256, 1024);
    assert_eq!(pm.needed_count(), 4);
    let bf = vec![true; 4];
    pm.claim_piece(&bf);
    pm.mark_done(0, 256);
    // Claimed pieces are still not Done, so needed = 3 (Needed state)
    assert_eq!(pm.needed_count(), 3);
}

#[test]
fn pending_set_contains_undone_pieces() {
    let mut pm = make_pm(3, 256, 768);
    let bf = vec![true; 3];
    pm.claim_piece(&bf);
    pm.mark_done(0, 256);
    let pending = pm.pending_set();
    assert!(!pending.contains(&0));
    assert!(pending.contains(&1));
    assert!(pending.contains(&2));
}

#[test]
fn bitfield_to_vec_parses_correctly() {
    // byte 0b10100000 = pieces 0 and 2 are present, 1 and 3 are not.
    let bitfield = vec![0b10100000u8];
    let has = PieceManager::bitfield_to_vec(&bitfield, 4);
    assert_eq!(has, vec![true, false, true, false]);
}

#[test]
fn bitfield_to_vec_truncates_to_piece_count() {
    // 1 byte = 8 bits; piece_count = 3 should ignore the rest.
    let bitfield = vec![0b11111111u8];
    let has = PieceManager::bitfield_to_vec(&bitfield, 3);
    assert_eq!(has.len(), 3);
    assert!(has.iter().all(|&b| b));
}

#[test]
fn build_bitfield_reflects_done_pieces() {
    let mut pm = make_pm(8, 256, 2048);
    let bf = vec![true; 8];
    pm.claim_piece(&bf); // claims piece 0
    pm.mark_done(0, 256);
    let bits = pm.build_bitfield();
    // Piece 0 done: first byte should have bit 7 set = 0b10000000.
    assert_eq!(bits[0], 0b10000000);
}

#[test]
fn build_bitfield_all_done_all_ones() {
    let mut pm = make_pm(8, 256, 2048);
    for i in 0..8u32 {
        pm.mark_done(i, 256);
    }
    let bits = pm.build_bitfield();
    assert_eq!(bits, vec![0b11111111u8]);
}

#[test]
fn every_piece_is_in_one_state() {
    let mut pm = make_pm(5, 10, 50);
    let all = vec![true; 5];
    pm.claim_piece(&all);
    pm.claim_piece(&all);
    pm.mark_done(0, 10);
    assert_eq!(pm.needed_count(), 3);
    assert_eq!(pm.done_count(), 1);
    assert_eq!(pm.pending_set().len(), 4);
}

#[test]
fn only_a_claim_can_be_returned() {
    let mut pm = make_pm(2, 10, 20);
    pm.return_piece(0);
    assert_eq!(pm.needed_count(), 2);
    pm.mark_done(0, 10);
    pm.return_piece(0);
    assert!(!pm.needs(0));
    pm.return_piece(99);
    pm.mark_done(99, 10);
    assert_eq!(pm.done_count(), 1);
    assert!(!pm.needs(99));
}

#[test]
fn a_short_bitfield_claims_nothing_past_its_end() {
    let mut pm = make_pm(3, 10, 30);
    assert_eq!(pm.claim_piece(&[false]), None);
    let has = PieceManager::bitfield_to_vec(&[0xFF], 10);
    assert_eq!(has[7..], [true, false, false]);
}

#[test]
fn a_bitfield_round_trip() {
    let mut pm = make_pm(10, 10, 95);
    for i in [0u32, 3, 8, 9] {
        let len = pm.piece_len(i);
        pm.mark_done(i, len);
    }
    let bits = pm.build_bitfield();
    assert_eq!(bits, vec![0b1001_0000, 0b1100_0000]);
    let has = PieceManager::bitfield_to_vec(&bits, 10);
    for i in 0..10u32 {
        assert_eq!(has[i as usize], !pm.needs(i));
    }
    assert_eq!(pm.downloaded(), 35);
}

#[test]
fn less_than_everything_is_downloaded_until_the_last_piece() {
    let mut pm = PieceManager::new(3, 10, 25);
    for (index, len) in [(2, 5), (0, 10), (1, 10)] {
        assert!(pm.downloaded < pm.total_length);
        assert!(!pm.is_complete());
        pm.mark_done(index, len);
    }
    assert_eq!(pm.downloaded, pm.total_length);
    assert!(pm.is_complete());
}

use stormdrain::error::{Error, PeerError};
use stormdrain::metainfo::{FileInfo, Metainfo};
use stormdrain::peer::message::{Message, BLOCK_SIZE};
use stormdrain::peer::mse::sha1_hash;
use stormdrain::peer_task::{PeerAction, PeerEvent, PeerTask, CHOKE_LIMIT};
use stormdrain::piece_download::PieceDownload;
use stormdrain::piece_manager::PieceManager;
use stormdrain::seed::piece_reply;
use stormdrain::types::InfoHash;

const PIECE: usize = 40000;

fn content() -> Vec<u8> {
    (0..PIECE + 10000).map(|i| (i * 7 % 256) as u8).collect()
}

/// A torrent of two pieces: one of three blocks, and a shorter one.
fn torrent() -> Metainfo {
    let all = content();
    Metainfo {
        info_hash: InfoHash([1; 20]),
        name: "data".to_string(),
        piece_length: PIECE as u64,
        piece_hashes: vec![sha1_hash(&[&all[..PIECE]]), sha1_hash(&[&all[PIECE..]])],
        files: vec![FileInfo {
            path: vec!["data".to_string()],
            length: all.len() as u64,
            offset: 0,
        }],
        total_length: all.len() as u64,
        trackers: vec![],
        comment: None,
        created_by: None,
        is_private: false,
    }
}

fn manager(meta: &Metainfo) -> PieceManager {
    PieceManager::new(meta.piece_count(), meta.piece_length, meta.total_length)
}

struct Run {
    meta: Metainfo,
    pm: PieceManager,
    task: PeerTask,
    now: u128,
}

impl Run {
    fn new(pipeline: usize) -> Run {
        let meta = torrent();
        assert!(meta.is_downloadable());
        let pm = manager(&meta);
        let task = PeerTask::new(&meta, pipeline);
        Run {
            meta,
            pm,
            task,
            now: 0,
        }
    }

    fn step(&mut self, e: PeerEvent) -> PeerAction {
        self.task.step(&mut self.pm, &self.meta, e, self.now)
    }

    fn message(&mut self, m: Message) -> PeerAction {
        self.step(PeerEvent::Message(m))
    }

    /// Up to the first request.
    fn unchoked(pipeline: usize) -> (Run, PeerAction) {
        let mut run = Run::new(pipeline);
        assert!(matches!(
            run.message(Message::Bitfield(vec![0b1100_0000])),
            PeerAction::Send(Message::Interested)
        ));
        assert!(matches!(
            run.step(PeerEvent::Sent),
            PeerAction::Read { seconds: 5 }
        ));
        let first = run.message(Message::Unchoke);
        (run, first)
    }
}

fn block(piece: u32, begin: u32, length: u32) -> Message {
    let at = piece as usize * PIECE + begin as usize;
    piece_reply(piece, begin, content()[at..at + length as usize].to_vec())
}

#[test]
fn a_whole_download() {
    let (mut run, mut action) = Run::unchoked(2);
    let mut asked = std::collections::VecDeque::new();
    let mut written = Vec::new();
    loop {
        action = match action {
            PeerAction::Send(Message::Request {
                index,
                begin,
                length,
            }) => {
                asked.push_back((index, begin, length));
                assert!(asked.len() <= 2);
                run.step(PeerEvent::Sent)
            }
            PeerAction::Read { seconds } => {
                assert_eq!(seconds, 30);
                let (index, begin, length) = asked.pop_front().unwrap();
                run.message(block(index, begin, length))
            }
            PeerAction::Write {
                piece,
                offset,
                data,
            } => {
                assert_eq!(offset, piece as u64 * PIECE as u64);
                assert!(run.pm.needs(piece));
                written.extend_from_slice(&data);
                run.step(PeerEvent::Written)
            }
            PeerAction::Done => break,
            _ => panic!("unexpected action"),
        };
    }
    assert_eq!(written, content());
    assert!(run.pm.is_complete());
    assert_eq!(run.pm.downloaded, run.meta.total_length);
}

#[test]
fn requests_follow_the_blocks() {
    let (mut run, first) = Run::unchoked(5);
    assert!(matches!(
        first,
        PeerAction::Send(Message::Request {
            index: 0,
            begin: 0,
            length: BLOCK_SIZE
        })
    ));
    assert!(matches!(
        run.step(PeerEvent::Sent),
        PeerAction::Send(Message::Request {
            index: 0,
            begin: 16384,
            length: BLOCK_SIZE
        })
    ));
    assert!(matches!(
        run.step(PeerEvent::Sent),
        PeerAction::Send(Message::Request {
            index: 0,
            begin: 32768,
            length: 7232
        })
    ));
    assert!(matches!(
        run.step(PeerEvent::Sent),
        PeerAction::Read { seconds: 30 }
    ));
}

#[test]
fn a_useless_peer_is_left() {
    let mut run = Run::new(5);
    assert!(matches!(
        run.message(Message::Bitfield(vec![0])),
        PeerAction::Done
    ));
    let mut run = Run::new(5);
    assert!(matches!(run.step(PeerEvent::Failed), PeerAction::Done));
    let mut run = Run::new(5);
    run.pm.mark_done(0, PIECE as u64);
    assert!(matches!(
        run.message(Message::Bitfield(vec![0b1000_0000])),
        PeerAction::Done
    ));
}

#[test]
fn have_messages_stand_in_for_a_bitfield() {
    let mut run = Run::new(5);
    assert!(matches!(
        run.message(Message::KeepAlive),
        PeerAction::Read { seconds: 3 }
    ));
    assert!(matches!(
        run.message(Message::Have(1)),
        PeerAction::Read { seconds: 3 }
    ));
    assert!(matches!(
        run.message(Message::Have(77)),
        PeerAction::Read { seconds: 3 }
    ));
    assert!(matches!(
        run.step(PeerEvent::Failed),
        PeerAction::Send(Message::Interested)
    ));
    run.step(PeerEvent::Sent);
    assert!(matches!(
        run.message(Message::Unchoke),
        PeerAction::Send(Message::Request {
            index: 1,
            begin: 0,
            length: 10000
        })
    ));
}

#[test]
fn a_peer_may_not_choke_for_too_long() {
    let mut run = Run::new(5);
    run.message(Message::Bitfield(vec![0b1100_0000]));
    run.step(PeerEvent::Sent);
    assert_eq!(run.pm.needed_count(), 1);
    run.now = CHOKE_LIMIT;
    assert!(matches!(
        run.message(Message::KeepAlive),
        PeerAction::Read { seconds: 5 }
    ));
    run.now = CHOKE_LIMIT + 1;
    assert!(matches!(
        run.message(Message::KeepAlive),
        PeerAction::Fail(Error::Peer(PeerError::ChokeTimeout))
    ));
    assert_eq!(run.pm.needed_count(), 2);
}

#[test]
fn a_peer_that_leaves_while_choking_returns_its_piece() {
    for e in [PeerEvent::Closed, PeerEvent::Failed] {
        let mut run = Run::new(5);
        run.message(Message::Bitfield(vec![0b1100_0000]));
        run.step(PeerEvent::Sent);
        assert!(matches!(
            run.step(e),
            PeerAction::Fail(Error::Peer(PeerError::LostWhileChoked))
        ));
        assert_eq!(run.pm.needed_count(), 2);
    }
}

#[test]
fn a_broken_download_returns_its_piece() {
    let (mut run, _) = Run::unchoked(5);
    assert!(matches!(
        run.message(Message::Choke),
        PeerAction::Fail(Error::Peer(PeerError::ChokedMidPiece))
    ));
    assert_eq!(run.pm.needed_count(), 2);

    let (mut run, _) = Run::unchoked(5);
    assert!(matches!(
        run.step(PeerEvent::Closed),
        PeerAction::Fail(Error::Peer(PeerError::ClosedMidPiece))
    ));
    assert_eq!(run.pm.needed_count(), 2);

    let (mut run, _) = Run::unchoked(5);
    assert!(matches!(run.step(PeerEvent::Failed), PeerAction::Abort));
    assert_eq!(run.pm.needed_count(), 2);

    let (mut run, _) = Run::unchoked(5);
    assert!(matches!(run.step(PeerEvent::SendFailed), PeerAction::Abort));
    assert_eq!(run.pm.needed_count(), 2);
}

/// Send every block of the first piece; what comes of the last one.
fn finish_first_piece(run: &mut Run, spoil: bool) -> PeerAction {
    run.step(PeerEvent::Sent);
    run.step(PeerEvent::Sent);
    run.step(PeerEvent::Sent);
    run.message(block(0, 0, 16384));
    run.message(block(0, 16384, 16384));
    let last = if spoil {
        piece_reply(0, 32768, vec![0; 7232])
    } else {
        block(0, 32768, 7232)
    };
    run.message(last)
}

#[test]
fn a_wrong_piece_is_discarded() {
    let (mut run, _) = Run::unchoked(5);
    assert!(matches!(
        finish_first_piece(&mut run, true),
        PeerAction::Fail(Error::PieceVerification(0))
    ));
    assert_eq!(run.pm.needed_count(), 2);
    assert_eq!(run.pm.done_count(), 0);
}

#[test]
fn a_piece_that_cannot_be_written_is_returned() {
    let (mut run, _) = Run::unchoked(5);
    assert!(matches!(
        finish_first_piece(&mut run, false),
        PeerAction::Write { piece: 0, .. }
    ));
    assert!(matches!(
        run.step(PeerEvent::WriteFailed),
        PeerAction::Abort
    ));
    assert_eq!(run.pm.needed_count(), 2);
    assert_eq!(run.pm.done_count(), 0);
}

#[test]
fn the_digest_decides() {
    let (mut run, _) = Run::unchoked(5);
    let meta = torrent();
    let right = meta.piece_hashes[0];
    let action = run.task.judge(&mut run.pm, &meta, &right);
    assert!(matches!(action, PeerAction::Write { piece: 0, offset: 0, .. }));

    let (mut run, _) = Run::unchoked(5);
    let action = run.task.judge(&mut run.pm, &meta, &[0; 20]);
    assert!(matches!(
        action,
        PeerAction::Fail(Error::PieceVerification(0))
    ));
}

#[test]
fn stale_and_repeated_blocks_are_ignored() {
    let (mut run, _) = Run::unchoked(1);
    assert!(matches!(
        run.message(piece_reply(1, 0, vec![9; 100])),
        PeerAction::Read { seconds: 30 }
    ));
    assert!(matches!(
        run.message(block(0, 0, 16384)),
        PeerAction::Send(Message::Request { begin: 16384, .. })
    ));
    assert!(matches!(
        run.message(piece_reply(0, 0, vec![9; 16384])),
        PeerAction::Read { seconds: 30 }
    ));
}

#[test]
fn two_tasks_claim_different_pieces() {
    let meta = torrent();
    let mut pm = manager(&meta);
    let mut requests = Vec::new();
    for _ in 0..3 {
        let mut task = PeerTask::new(&meta, 5);
        task.step(
            &mut pm,
            &meta,
            PeerEvent::Message(Message::Bitfield(vec![0b1100_0000])),
            0,
        );
        task.step(&mut pm, &meta, PeerEvent::Sent, 0);
        requests.push(task.step(&mut pm, &meta, PeerEvent::Message(Message::Unchoke), 0));
    }
    assert!(matches!(
        requests[0],
        PeerAction::Send(Message::Request { index: 0, .. })
    ));
    assert!(matches!(
        requests[1],
        PeerAction::Send(Message::Request { index: 1, .. })
    ));
    // Nothing was left for the third.
    assert!(matches!(requests[2], PeerAction::Abort));
}

#[test]
fn blocks_are_put_where_they_belong() {
    let mut d = PieceDownload::new(3, 20000);
    assert_eq!(d.index(), 3);
    assert_eq!(d.next_request(1), Some((0, 16384)));
    assert_eq!(d.next_request(1), None);
    assert!(d.on_block(16384, &[7; 5000]).is_ok());
    assert!(!d.is_complete());
    assert!(d.on_block(0, &[1; 16384]).is_ok());
    assert!(d.is_complete());
    assert_eq!(d.data()[16383], 1);
    assert_eq!(d.data()[16384], 7);
    let data = d.into_data();
    assert_eq!(data.len(), 20000);
    assert_eq!(data[19999], 7);
}

#[test]
fn a_block_outside_the_piece_is_an_error() {
    let mut d = PieceDownload::new(0, 100);
    assert_eq!(d.on_block(101, &[0]), Err(PeerError::BlockOutOfBounds));
    assert!(d.on_block(1 << 20, &[0]).is_ok());
    assert!(!d.is_complete());
}

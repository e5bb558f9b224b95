use stormdrain::download::{
    metadata_peer, needs_metadata, peer_to_connect, peers_to_try, source_of, DownloadState,
    MetadataSearch, Progress, SearchAction, Session, SessionAction, SessionEvent, Source,
};
use stormdrain::error::{Error, PeerError};
use stormdrain::magnet::MagnetLink;
use stormdrain::metainfo::Metainfo;
use stormdrain::piece_manager::PieceManager;
use stormdrain::tracker::Event;
use stormdrain::types::{IpAddr, PeerAddr};

fn torrent() -> Metainfo {
    let mut v = b"d4:infod6:lengthi25e4:name1:x12:piece lengthi10e6:pieces60:".to_vec();
    v.extend_from_slice(&[0; 60]);
    v.extend_from_slice(b"ee");
    Metainfo::from_bytes(&v).unwrap()
}

fn peers(n: usize) -> Vec<PeerAddr> {
    (0..n)
        .map(|i| PeerAddr {
            ip: IpAddr::V4([10, 0, 0, i as u8]),
            port: 1,
        })
        .collect()
}

#[test]
fn peers_are_limited() {
    assert_eq!(
        peers_to_try(&vec![], true, 5).unwrap_err(),
        Error::EmptySwarm
    );
    assert_eq!(
        peers_to_try(&vec![], false, 5).unwrap_err(),
        Error::NoTrackers
    );
    assert_eq!(peers_to_try(&peers(10), false, 2).unwrap(), peers(6));
    assert_eq!(peers_to_try(&peers(5), true, 2).unwrap(), peers(5));
}

#[test]
fn metadata_is_asked_of_twenty_peers() {
    assert_eq!(
        metadata_peer(&vec![], 0).unwrap_err(),
        Error::NoTrackers
    );
    let few = peers(2);
    assert_eq!(metadata_peer(&few, 1).unwrap(), few[1]);
    assert_eq!(
        metadata_peer(&few, 2).unwrap_err(),
        Error::Peer(PeerError::MetadataUnavailable)
    );
    let many = peers(30);
    assert_eq!(metadata_peer(&many, 19).unwrap(), many[19]);
    assert_eq!(
        metadata_peer(&many, 20).unwrap_err(),
        Error::Peer(PeerError::MetadataUnavailable)
    );
}

#[test]
fn a_magnet_link_needs_metadata() {
    let link =
        MagnetLink::parse("magnet:?xt=urn:btih:aabbccddaabbccddaabbccddaabbccddaabbccdd").unwrap();
    assert!(needs_metadata(&Metainfo::placeholder_magnet(&link)));
    assert!(!needs_metadata(&torrent()));
}

#[test]
fn every_new_piece_is_checkpointed_once() {
    let meta = torrent();
    let mut pm = PieceManager::new(3, 10, 25);
    let mut progress = Progress::start(&pm);
    let t = progress.tick(&meta, &pm, 0, 0);
    assert!(t.checkpoint.is_none());
    assert_eq!(t.state, DownloadState::Connecting);
    assert_eq!(t.total, 25);

    pm.mark_done(2, 5);
    let t = progress.tick(&meta, &pm, 100, 1);
    assert_eq!(t.state, DownloadState::Downloading);
    assert_eq!((t.received, t.sent), (5, 100));
    let saved = t.checkpoint.unwrap();
    assert_eq!(saved.pieces_done, vec![2]);
    assert_eq!(saved.downloaded, 5);
    assert_eq!(saved.uploaded, 100);
    assert_eq!(saved.info_hash, meta.info_hash.to_hex());

    let t = progress.tick(&meta, &pm, 100, 1);
    assert!(t.checkpoint.is_none());
    assert_eq!((t.received, t.sent), (0, 0));

    pm.mark_done(0, 10);
    pm.mark_done(1, 10);
    let t = progress.tick(&meta, &pm, 150, 0);
    assert_eq!(t.state, DownloadState::Complete);
    assert_eq!((t.pieces_done, t.pieces_total), (3, 3));
    assert_eq!(t.checkpoint.unwrap().pieces_done, vec![0, 1, 2]);
    assert_eq!((t.received, t.sent), (20, 50));
}

#[test]
fn resumed_pieces_are_not_saved_again() {
    let meta = torrent();
    let mut pm = PieceManager::new(3, 10, 25);
    pm.mark_done(1, 10);
    let mut progress = Progress::start(&pm);
    let t = progress.tick(&meta, &pm, 0, 1);
    assert!(t.checkpoint.is_none());
    assert_eq!(t.received, 10);
}

/// A session up to its first sleep.
fn connected(seed: bool) -> (Session, Metainfo, PieceManager) {
    let meta = torrent();
    let pm = PieceManager::new(3, 10, 25);
    let (mut s, first) = Session::start(&meta, 2, seed);
    assert!(matches!(first, SessionAction::LoadResume));
    assert!(matches!(
        s.step(&meta, &pm, SessionEvent::ResumeLoaded),
        SessionAction::VerifyPieces
    ));
    assert!(matches!(
        s.step(&meta, &pm, SessionEvent::PiecesVerified),
        SessionAction::PrepareFiles
    ));
    assert!(matches!(
        s.step(&meta, &pm, SessionEvent::FilesPrepared),
        SessionAction::Announce {
            event: Event::Started,
            downloaded: 0,
            uploaded: 0
        }
    ));
    let found = SessionEvent::Announced {
        peers: peers(10),
        any_responded: true,
    };
    match s.step(&meta, &pm, found) {
        SessionAction::Connect(list) => assert_eq!(list, peers(6)),
        _ => panic!("expected connections"),
    }
    assert!(matches!(
        s.step(&meta, &pm, SessionEvent::Connected),
        SessionAction::Sleep
    ));
    (s, meta, pm)
}

fn woken(uploaded: u64) -> SessionEvent {
    SessionEvent::Woken {
        uploaded,
        peers_active: 1,
    }
}

fn reported(no_tasks_left: bool, uploaded: u64) -> SessionEvent {
    SessionEvent::ReportGiven {
        no_tasks_left,
        uploaded,
    }
}

#[test]
fn a_session_from_start_to_end() {
    let (mut s, meta, mut pm) = connected(true);
    match s.step(&meta, &pm, woken(0)) {
        SessionAction::GiveReport(t) => assert_eq!(t.state, DownloadState::Downloading),
        _ => panic!("expected a report"),
    }
    assert!(matches!(
        s.step(&meta, &pm, reported(false, 0)),
        SessionAction::Sleep
    ));
    for i in 0..3 {
        let len = pm.piece_len(i);
        pm.mark_done(i, len);
    }
    match s.step(&meta, &pm, woken(4)) {
        SessionAction::GiveReport(t) => {
            assert_eq!(t.state, DownloadState::Complete);
            assert!(t.checkpoint.is_some());
        }
        _ => panic!("expected a report"),
    }
    match s.step(&meta, &pm, reported(true, 5)) {
        SessionAction::Save(state) => {
            assert_eq!(state.pieces_done, vec![0, 1, 2]);
            assert_eq!(state.uploaded, 5);
        }
        _ => panic!("expected a checkpoint"),
    }
    assert!(matches!(
        s.step(&meta, &pm, SessionEvent::Saved),
        SessionAction::StopPeers
    ));
    assert!(matches!(
        s.step(&meta, &pm, SessionEvent::Stopped { uploaded: 6 }),
        SessionAction::Announce {
            event: Event::Completed,
            downloaded: 25,
            uploaded: 6
        }
    ));
    let announced = SessionEvent::Announced {
        peers: vec![],
        any_responded: false,
    };
    assert!(matches!(
        s.step(&meta, &pm, announced),
        SessionAction::Seed
    ));
    assert!(matches!(
        s.step(&meta, &pm, SessionEvent::SeedingEnded),
        SessionAction::RemoveResume
    ));
    assert!(matches!(
        s.step(&meta, &pm, SessionEvent::ResumeRemoved),
        SessionAction::Done
    ));
}

#[test]
fn a_session_without_connections_stalls() {
    let (mut s, meta, pm) = connected(false);
    s.step(&meta, &pm, woken(0));
    assert!(matches!(
        s.step(&meta, &pm, reported(true, 0)),
        SessionAction::Fail(Error::Stalled)
    ));
}

#[test]
fn a_session_without_peers_fails() {
    for (any_responded, e) in [(true, Error::EmptySwarm), (false, Error::NoTrackers)] {
        let meta = torrent();
        let pm = PieceManager::new(3, 10, 25);
        let (mut s, _) = Session::start(&meta, 2, false);
        s.step(&meta, &pm, SessionEvent::ResumeLoaded);
        s.step(&meta, &pm, SessionEvent::PiecesVerified);
        s.step(&meta, &pm, SessionEvent::FilesPrepared);
        let found = SessionEvent::Announced {
            peers: vec![],
            any_responded,
        };
        match s.step(&meta, &pm, found) {
            SessionAction::Fail(x) => assert_eq!(x, e),
            _ => panic!("expected a failure"),
        }
    }
}

#[test]
fn a_magnet_session_fetches_metadata_first() {
    let link =
        MagnetLink::parse("magnet:?xt=urn:btih:aabbccddaabbccddaabbccddaabbccddaabbccdd").unwrap();
    let meta = Metainfo::placeholder_magnet(&link);
    let pm = PieceManager::new(0, 0, 0);
    let (mut s, first) = Session::start(&meta, 2, false);
    assert!(matches!(first, SessionAction::FetchMetadata));
    assert!(matches!(
        s.step(&meta, &pm, SessionEvent::MetadataFetched),
        SessionAction::LoadResume
    ));
    let (mut s, _) = Session::start(&meta, 2, false);
    assert!(matches!(
        s.step(&meta, &pm, SessionEvent::Failed),
        SessionAction::Abort
    ));
}

#[test]
fn sources_are_told_apart() {
    assert_eq!(source_of("magnet:?xt=urn:btih:aa"), Source::Magnet);
    assert_eq!(source_of("http://x/y.torrent"), Source::Url);
    assert_eq!(source_of("https://x/y.torrent"), Source::Url);
    assert_eq!(source_of("ubuntu.torrent"), Source::File);
    assert_eq!(source_of("ftp://x"), Source::File);
}

#[test]
fn metadata_is_searched_peer_by_peer() {
    let few = peers(2);
    let (mut search, action) = MetadataSearch::start(few.clone());
    assert!(matches!(action, SearchAction::AskPeer(p) if p == few[0]));
    assert!(matches!(search.on_failure(), SearchAction::AskPeer(p) if p == few[1]));
    assert!(matches!(
        search.on_failure(),
        SearchAction::Fail(Error::Peer(PeerError::MetadataUnavailable))
    ));
    let (mut search, action) = MetadataSearch::start(peers(30));
    assert!(matches!(action, SearchAction::AskPeer(_)));
    for _ in 0..19 {
        assert!(matches!(search.on_failure(), SearchAction::AskPeer(_)));
    }
    assert!(matches!(search.on_failure(), SearchAction::Fail(_)));
}

#[test]
fn the_dht_is_asked_when_no_peer_is_known() {
    let (mut search, action) = MetadataSearch::start(vec![]);
    assert!(matches!(action, SearchAction::AskDht));
    let found = peers(1);
    assert!(matches!(search.on_dht(&found), SearchAction::AskPeer(p) if p == found[0]));
    let (mut search, _) = MetadataSearch::start(vec![]);
    assert!(matches!(
        search.on_dht(&vec![]),
        SearchAction::Fail(Error::NoTrackers)
    ));
}

#[test]
fn peers_are_connected_to_while_pieces_are_missing() {
    let list = peers(2);
    let mut pm = PieceManager::new(1, 10, 10);
    assert_eq!(peer_to_connect(&list, 1, &pm), Some(list[1]));
    assert_eq!(peer_to_connect(&list, 2, &pm), None);
    pm.mark_done(0, 10);
    assert_eq!(peer_to_connect(&list, 0, &pm), None);
}

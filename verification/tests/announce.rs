use stormdrain::announce::{announce_request, sorted_peers, AnnounceRound};
use stormdrain::metainfo::Metainfo;
use stormdrain::tracker::Event;
use stormdrain::types::{InfoHash, IpAddr, PeerAddr, PeerId};

fn torrent(tiers: &[&[&str]]) -> Metainfo {
    Metainfo {
        info_hash: InfoHash([3; 20]),
        name: "x".to_string(),
        piece_length: 1,
        piece_hashes: vec![],
        files: vec![],
        total_length: 1000,
        trackers: tiers
            .iter()
            .map(|t| t.iter().map(|u| u.to_string()).collect())
            .collect(),
        comment: None,
        created_by: None,
        is_private: false,
    }
}

fn v4(d: u8, port: u16) -> PeerAddr {
    PeerAddr {
        ip: IpAddr::V4([10, 0, 0, d]),
        port,
    }
}

#[test]
fn the_first_responsive_tracker_of_each_tier_counts() {
    let meta = torrent(&[
        &["wss://no", "udp://down:1", "http://up", "http://unused"],
        &["foo://bar"],
        &["udp://also:2"],
    ]);
    let mut round = AnnounceRound::start();
    assert_eq!(round.next(&meta), Some((0, 1)));
    round.on_answer(&meta, &None);
    assert_eq!(round.next(&meta), Some((0, 2)));
    round.on_answer(&meta, &Some(vec![v4(2, 80), v4(1, 80)]));
    assert_eq!(round.next(&meta), Some((2, 0)));
    round.on_answer(&meta, &Some(vec![v4(1, 80), v4(1, 79)]));
    assert_eq!(round.next(&meta), None);
    assert!(!round.wants_dht(Event::Started));
    let (peers, responded) = round.finish();
    assert!(responded);
    assert_eq!(peers, vec![v4(1, 79), v4(1, 80), v4(2, 80)]);
}

#[test]
fn the_dht_is_asked_when_a_download_finds_no_peers() {
    let meta = torrent(&[&["http://up"]]);
    let mut round = AnnounceRound::start();
    assert!(round.next(&meta).is_some());
    round.on_answer(&meta, &Some(vec![]));
    assert!(round.next(&meta).is_none());
    assert!(round.wants_dht(Event::Started));
    assert!(!round.wants_dht(Event::Completed));
    round.add_peers(&vec![v4(5, 5)]);
    assert!(!round.wants_dht(Event::Started));
    assert_eq!(round.finish(), (vec![v4(5, 5)], true));
}

#[test]
fn without_an_answer_nobody_responded() {
    let meta = torrent(&[&["http://down"], &[]]);
    let mut round = AnnounceRound::start();
    assert_eq!(round.next(&meta), Some((0, 0)));
    round.on_answer(&meta, &None);
    assert!(round.next(&meta).is_none());
    assert_eq!(round.finish(), (vec![], false));
}

#[test]
fn peers_are_sorted_like_addresses() {
    let v6 = |b: u8| PeerAddr {
        ip: IpAddr::V6([b; 16]),
        port: 1,
    };
    let all = vec![v6(0), v4(9, 1), v6(1), v4(2, 7), v4(9, 1), v6(0)];
    let sorted = sorted_peers(&all);
    let mut want = all.clone();
    want.sort_unstable();
    want.dedup();
    assert_eq!(sorted, want);
    assert_eq!(sorted, vec![v4(2, 7), v4(9, 1), v6(0), v6(1)]);
    assert!(sorted_peers(&vec![]).is_empty());
}

#[test]
fn what_a_tracker_is_told() {
    let meta = torrent(&[]);
    let req = announce_request(
        &meta,
        "http://t",
        PeerId([9; 20]),
        6881,
        Event::Completed,
        400,
        7,
    );
    assert_eq!(req.tracker_url, "http://t");
    assert_eq!(req.info_hash, InfoHash([3; 20]));
    assert_eq!(req.left, 600);
    assert_eq!(req.downloaded, 400);
    assert_eq!(req.uploaded, 7);
    assert_eq!(req.num_want, 200);
    assert_eq!(req.event, Some(Event::Completed));
    let more = announce_request(&meta, "", PeerId([9; 20]), 1, Event::Started, 1001, 0);
    assert_eq!(more.left, 0);
}

use stormdrain::error::{Error, TrackerError};
use stormdrain::tracker::http::{build_url, parse_response};
use stormdrain::tracker::udp::{
    build_announce, build_connect, parse_announce, parse_connect, udp_host_port, UdpAnnounce,
};
use stormdrain::tracker::{scheme_of, AnnounceRequest, Event, Scheme};
use stormdrain::types::{InfoHash, IpAddr, PeerAddr, PeerId};

fn request(url: &str, event: Option<Event>) -> AnnounceRequest<'_> {
    AnnounceRequest {
        tracker_url: url,
        info_hash: InfoHash([0xAB; 20]),
        peer_id: PeerId(*b"-SD0100-123456789012"),
        port: 6881,
        uploaded: 1,
        downloaded: 22,
        left: 333,
        event,
        num_want: 200,
    }
}

#[test]
fn event_names() {
    assert_eq!(Event::Started.as_str(), "started");
    assert_eq!(Event::Stopped.as_str(), "stopped");
    assert_eq!(Event::Completed.as_str(), "completed");
}

#[test]
fn announce_url_is_exact() {
    let hash = "%ab".repeat(20);
    assert_eq!(
        build_url(&request("http://t.example/ann", Some(Event::Started))),
        format!("http://t.example/ann?info_hash={hash}&peer_id=-SD0100-123456789012&port=6881&uploaded=1&downloaded=22&left=333&compact=1&numwant=200&event=started")
    );
    assert_eq!(
        build_url(&request("http://t.example/ann?key=1", None)),
        format!("http://t.example/ann?key=1&info_hash={hash}&peer_id=-SD0100-123456789012&port=6881&uploaded=1&downloaded=22&left=333&compact=1&numwant=200")
    );
    let mut req = request("http://t.example/ann", None);
    req.num_want = -1;
    assert!(build_url(&req).ends_with("&numwant=-1"));
}

#[test]
fn schemes_are_recognised() {
    assert_eq!(scheme_of("udp://t.example:1337/announce"), Scheme::Udp);
    assert_eq!(scheme_of("UDP://t.example:1337"), Scheme::Udp);
    assert_eq!(scheme_of("http://t.example/ann"), Scheme::Http);
    assert_eq!(scheme_of("https://t.example/ann"), Scheme::Http);
    assert_eq!(scheme_of("wss://t.example"), Scheme::Unsupported);
    assert_eq!(scheme_of(""), Scheme::Unsupported);
}

#[test]
fn compact_response() {
    let mut body = b"d8:intervali1800e5:peers12:".to_vec();
    body.extend_from_slice(&[10, 0, 0, 1, 0x1A, 0xE1, 10, 0, 0, 2, 0, 80]);
    body.extend_from_slice(b"15:warning message4:slowe");
    let reply = parse_response(&body).unwrap();
    assert_eq!(reply.interval, 1800);
    assert_eq!(reply.warning.as_deref(), Some("slow"));
    assert!(reply.listed.is_empty());
    let resp = reply.with_addresses(&vec![]);
    assert_eq!(
        resp.peers,
        vec![
            PeerAddr {
                ip: IpAddr::V4([10, 0, 0, 1]),
                port: 6881
            },
            PeerAddr {
                ip: IpAddr::V4([10, 0, 0, 2]),
                port: 80
            },
        ]
    );
}

#[test]
fn listed_peers_keep_their_order_and_need_an_address() {
    let body = b"d5:peersld2:ip8:10.0.0.14:porti80eed2:ip4:evil4:porti81eed2:ip8:10.0.0.34:porti82eeee";
    let reply = parse_response(body).unwrap();
    assert_eq!(
        reply.listed,
        vec![
            ("10.0.0.1".to_string(), 80),
            ("evil".to_string(), 81),
            ("10.0.0.3".to_string(), 82),
        ]
    );
    let resp = reply.with_addresses(&vec![
        Some(IpAddr::V4([10, 0, 0, 1])),
        None,
        Some(IpAddr::V4([10, 0, 0, 3])),
    ]);
    assert_eq!(resp.peers.len(), 2);
    assert_eq!(resp.peers[1].port, 82);
    assert_eq!(resp.interval, 1800);
}

#[test]
fn failure_reason_is_an_error() {
    let e = parse_response(b"d14:failure reason6:bannede").err().unwrap();
    assert_eq!(e, Error::Tracker(TrackerError::Failure("banned".to_string())));
    assert_eq!(e.message(), "Tracker error: tracker: banned");
}

#[test]
fn ragged_compact_peers_are_an_error() {
    let e = parse_response(b"d5:peers5:abcdee").err().unwrap();
    assert_eq!(
        e,
        Error::Tracker(TrackerError::CompactPeersLength { len: 5 })
    );
    assert!(parse_response(b"nonsense").is_err());
}

#[test]
fn connect_packet_is_exact() {
    assert_eq!(
        build_connect(0x01020304),
        vec![0, 0, 4, 0x17, 0x27, 0x10, 0x19, 0x80, 0, 0, 0, 0, 1, 2, 3, 4]
    );
}

#[test]
fn connect_response_is_matched() {
    let mut resp = vec![0, 0, 0, 0, 1, 2, 3, 4, 9, 9, 9, 9, 9, 9, 9, 9];
    assert_eq!(
        parse_connect(&resp, 0x01020304).unwrap(),
        0x0909090909090909
    );
    assert_eq!(
        parse_connect(&resp, 5).unwrap_err(),
        Error::Tracker(TrackerError::ConnectTransaction)
    );
    assert_eq!(
        parse_connect(&resp[..15], 5).unwrap_err(),
        Error::Tracker(TrackerError::ConnectTooShort)
    );
    resp[3] = 3;
    assert_eq!(
        parse_connect(&resp, 0x01020304).unwrap_err(),
        Error::Tracker(TrackerError::ConnectAction(3))
    );
}

#[test]
fn announce_packet_layout() {
    let req = request("udp://t.example:1", Some(Event::Completed));
    let p = build_announce(&req, 0x1122334455667788, 0xAABBCCDD, 0x01020304);
    assert_eq!(p.len(), 98);
    assert_eq!(&p[0..8], &[0x11, 0x22, 0x33, 0x44, 0x55, 0x66, 0x77, 0x88]);
    assert_eq!(&p[8..12], &[0, 0, 0, 1]);
    assert_eq!(&p[12..16], &[0xAA, 0xBB, 0xCC, 0xDD]);
    assert_eq!(&p[16..36], &[0xAB; 20]);
    assert_eq!(&p[36..56], b"-SD0100-123456789012");
    assert_eq!(&p[56..64], &22u64.to_be_bytes());
    assert_eq!(&p[64..72], &333u64.to_be_bytes());
    assert_eq!(&p[72..80], &1u64.to_be_bytes());
    assert_eq!(&p[80..84], &1u32.to_be_bytes());
    assert_eq!(&p[84..88], &[0; 4]);
    assert_eq!(&p[88..92], &[1, 2, 3, 4]);
    assert_eq!(&p[92..96], &[0xFF; 4]);
    assert_eq!(&p[96..98], &6881u16.to_be_bytes());
    let stopped = build_announce(&request("udp://t", Some(Event::Stopped)), 0, 0, 0);
    assert_eq!(stopped[83], 3);
    let started = build_announce(&request("udp://t", Some(Event::Started)), 0, 0, 0);
    assert_eq!(started[83], 2);
}

#[test]
fn announce_response_is_read() {
    let mut resp = Vec::new();
    resp.extend_from_slice(&1u32.to_be_bytes());
    resp.extend_from_slice(&7u32.to_be_bytes());
    resp.extend_from_slice(&900u32.to_be_bytes());
    resp.extend_from_slice(&[0; 8]);
    resp.extend_from_slice(&[127, 0, 0, 1, 0x1A, 0xE1, 1]);
    let a = parse_announce(&resp, 7).unwrap();
    assert_eq!(a.interval, 900);
    assert!(a.warning.is_none());
    assert_eq!(
        a.peers,
        vec![PeerAddr {
            ip: IpAddr::V4([127, 0, 0, 1]),
            port: 6881
        }]
    );
    assert_eq!(
        parse_announce(&resp, 8).err().unwrap(),
        Error::Tracker(TrackerError::AnnounceTransaction)
    );
    assert_eq!(
        parse_announce(&resp[..19], 7).err().unwrap(),
        Error::Tracker(TrackerError::AnnounceTooShort { len: 19 })
    );
    resp[3] = 2;
    assert_eq!(
        parse_announce(&resp, 7).err().unwrap(),
        Error::Tracker(TrackerError::AnnounceAction(2))
    );
    resp[3] = 3;
    let mut refused = resp[..8].to_vec();
    refused.extend_from_slice(b"no such torrent");
    assert_eq!(
        parse_announce(&refused, 7).err().unwrap(),
        Error::Tracker(TrackerError::Udp("no such torrent".to_string()))
    );
    let mut garbled = resp[..8].to_vec();
    garbled.extend_from_slice(&[0xFF; 12]);
    assert_eq!(
        parse_announce(&garbled, 7).err().unwrap(),
        Error::Tracker(TrackerError::Udp("unknown error".to_string()))
    );
}

#[test]
fn a_whole_udp_announce() {
    let (mut announce, packet) = UdpAnnounce::start();
    let mut resp = vec![0, 0, 0, 0];
    resp.extend_from_slice(&packet[12..16]);
    resp.extend_from_slice(&[5; 8]);
    let req = request("udp://t.example:1", Some(Event::Started));
    let packet = announce.connected(&resp, &req).unwrap();
    assert_eq!(&packet[0..8], &[5; 8]);
    let mut resp = vec![0, 0, 0, 1];
    resp.extend_from_slice(&packet[12..16]);
    resp.extend_from_slice(&[0; 12]);
    assert!(announce.announced(&resp).unwrap().peers.is_empty());
}

#[test]
fn random_ids_differ_between_announces() {
    let ids: Vec<Vec<u8>> = (0..8).map(|_| UdpAnnounce::start().1).collect();
    assert!(ids.iter().any(|p| p != &ids[0]));
}

#[test]
fn udp_address_is_cut_at_the_path() {
    assert_eq!(
        udp_host_port("udp://t.example:1337/announce").unwrap(),
        "t.example:1337"
    );
    assert_eq!(udp_host_port("UDP://t.example:1").unwrap(), "t.example:1");
    assert_eq!(
        udp_host_port("http://t.example").unwrap_err(),
        Error::Tracker(TrackerError::NotUdp {
            url: "http://t.example".to_string()
        })
    );
}

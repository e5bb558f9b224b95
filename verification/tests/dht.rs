use std::time::Instant;

use stormdrain::bencode::{bencode_encode, decode, Dict, Value};
use stormdrain::dht::{
    announce_peer_packet, build_query, find_node_packet, fresh_tid, get_peers_packet,
    parse_compact_nodes, parse_peers_list, pong_packet, DhtEvent, DhtNode, DhtState, Lookup,
    NodeId, PacketAction, RoutingTable, BOOTSTRAP_NODES, TABLE_SIZE,
};
use stormdrain::types::{InfoHash, IpAddr, PeerAddr};

fn make_node(id: [u8; 20], ip: u8) -> DhtNode {
    DhtNode {
        id: NodeId(id),
        addr: PeerAddr {
            ip: IpAddr::V4([10, 0, 0, ip]),
            port: 6881,
        },
        last_seen: Instant::now(),
    }
}

#[test]
fn node_id_random_has_correct_length() {
    let id = NodeId::random();
    assert_eq!(id.as_bytes().len(), 20);
}

#[test]
fn node_id_random_produces_unique_ids() {
    let a = NodeId::random();
    let b = NodeId::random();
    assert_ne!(a, b);
}

#[test]
fn node_id_distance_self_is_zero() {
    let id = NodeId([5u8; 20]);
    assert_eq!(id.distance(&id), [0u8; 20]);
}

#[test]
fn node_id_distance_known_xor() {
    let a = NodeId([0b10101010u8; 20]);
    let b = NodeId([0b01010101u8; 20]);
    let dist = a.distance(&b);
    assert_eq!(dist, [0b11111111u8; 20]);
}

#[test]
fn node_id_distance_is_symmetric() {
    let a = NodeId([0x12u8; 20]);
    let b = NodeId([0x34u8; 20]);
    assert_eq!(a.distance(&b), b.distance(&a));
}

#[test]
fn routing_table_starts_empty() {
    let rt = RoutingTable::new();
    assert_eq!(rt.len(), 0);
}

#[test]
fn routing_table_add_increases_len() {
    let mut rt = RoutingTable::new();
    rt.add(make_node([1u8; 20], 1));
    rt.add(make_node([2u8; 20], 2));
    assert_eq!(rt.len(), 2);
}

#[test]
fn routing_table_add_refreshes_existing_node() {
    let mut rt = RoutingTable::new();
    rt.add(make_node([1u8; 20], 1));
    rt.add(make_node([1u8; 20], 2)); // same ID, different addr
    assert_eq!(rt.len(), 1);
    let found = rt.closest(&NodeId([1u8; 20]), 1);
    assert_eq!(found[0].addr.ip, IpAddr::V4([10, 0, 0, 2]));
}

#[test]
fn routing_table_closest_returns_k_nearest() {
    let target = NodeId([0u8; 20]);
    let mut rt = RoutingTable::new();
    // Add nodes at increasing distances from target.
    for i in 1u8..=10 {
        let mut id = [0u8; 20];
        id[19] = i; // distance = i from target
        rt.add(make_node(id, i));
    }
    let closest = rt.closest(&target, 3);
    assert_eq!(closest.len(), 3);
    // The closest should be distance 1 (id[19] = 1).
    assert_eq!(closest[0].id.0[19], 1);
}

#[test]
fn routing_table_closest_returns_all_when_fewer_than_k() {
    let mut rt = RoutingTable::new();
    rt.add(make_node([1u8; 20], 1));
    rt.add(make_node([2u8; 20], 2));
    let closest = rt.closest(&NodeId::random(), 10);
    assert_eq!(closest.len(), 2);
}

#[test]
fn bootstrap_nodes_are_non_empty() {
    assert!(!BOOTSTRAP_NODES.is_empty());
    for node in BOOTSTRAP_NODES {
        // Each bootstrap node should contain a port separator.
        assert!(node.contains(':'), "Bootstrap node '{node}' has no port");
    }
}

fn packet_from(n: u8) -> PeerAddr {
    PeerAddr {
        ip: IpAddr::V4([10, 0, 0, n]),
        port: 6881,
    }
}

#[test]
fn a_full_table_drops_nothing_it_should_keep() {
    let mut rt = RoutingTable::new();
    assert!(rt.is_empty());
    for i in 0..TABLE_SIZE + 5 {
        let mut id = [0u8; 20];
        id[0] = (i / 256) as u8;
        id[1] = (i % 256) as u8;
        rt.add(make_node(id, 1));
    }
    assert_eq!(rt.len(), TABLE_SIZE);
}

#[test]
fn query_packets_are_exact() {
    let own = NodeId([b'o'; 20]);
    let hash = InfoHash([b'h'; 20]);
    let o = "o".repeat(20);
    let h = "h".repeat(20);
    assert_eq!(
        String::from_utf8(find_node_packet(b"ab", &own, &NodeId([b'h'; 20]))).unwrap(),
        format!("d1:ad2:id20:{o}6:target20:{h}e1:q9:find_node1:t2:ab1:y1:qe")
    );
    assert_eq!(
        String::from_utf8(get_peers_packet(b"ab", &own, &hash)).unwrap(),
        format!("d1:ad2:id20:{o}9:info_hash20:{h}e1:q9:get_peers1:t2:ab1:y1:qe")
    );
    assert_eq!(
        String::from_utf8(announce_peer_packet(b"ab", &own, &hash, b"tok")).unwrap(),
        format!("d1:ad2:id20:{o}12:implied_porti1e9:info_hash20:{h}4:porti0e5:token3:toke1:q13:announce_peer1:t2:ab1:y1:qe")
    );
    assert_eq!(
        String::from_utf8(pong_packet(b"ab", &own)).unwrap(),
        format!("d1:rd2:id20:{o}e1:t2:ab1:y1:re")
    );
}

#[test]
fn transaction_ids_have_two_bytes() {
    let ids: Vec<Vec<u8>> = (0..16).map(|_| fresh_tid()).collect();
    assert!(ids.iter().all(|t| t.len() == 2));
    assert!(ids.iter().any(|t| t != &ids[0]));
}

#[test]
fn compact_nodes_are_read() {
    let mut raw = vec![7u8; 20];
    raw.extend_from_slice(&[10, 0, 0, 3, 0x1A, 0xE1, 0xFF]);
    let nodes = parse_compact_nodes(&raw, Instant::now());
    assert_eq!(nodes.len(), 1);
    assert_eq!(nodes[0].id, NodeId([7; 20]));
    assert_eq!(nodes[0].addr, packet_from(3));
}

#[test]
fn a_list_of_peers_is_read() {
    let v = decode(b"l6:\x0a\x00\x00\x01\x1a\xe15:short6:\x0a\x00\x00\x02\x1a\xe1i1ee").unwrap();
    assert_eq!(parse_peers_list(&v), vec![packet_from(1), packet_from(2)]);
    assert!(parse_peers_list(&decode(b"i1e").unwrap()).is_empty());
}

#[test]
fn a_ping_is_answered() {
    let own = NodeId([b'o'; 20]);
    let mut state = DhtState::new(own);
    let ping = b"d1:ad2:id20:aaaaaaaaaaaaaaaaaaaae1:q4:ping1:t2:xy1:y1:qe";
    match state.on_packet(ping, packet_from(1), Instant::now()).unwrap() {
        PacketAction::Send(p) => assert_eq!(p, pong_packet(b"xy", &own)),
        _ => panic!("expected an answer"),
    }
    let other = b"d1:q9:find_node1:t2:xy1:y1:qe";
    assert!(matches!(
        state.on_packet(other, packet_from(1), Instant::now()).unwrap(),
        PacketAction::Nothing
    ));
    assert!(state.on_packet(b"junk", packet_from(1), Instant::now()).is_err());
}

#[test]
fn only_awaited_responses_are_delivered() {
    let mut state = DhtState::new(NodeId([0; 20]));
    assert_eq!(state.own_id(), NodeId([0; 20]));
    let mut resp = b"d1:rd2:id20:aaaaaaaaaaaaaaaaaaaa5:nodes26:".to_vec();
    resp.extend_from_slice(&[b'b'; 20]);
    resp.extend_from_slice(&[10, 0, 0, 2, 0x1A, 0xE1]);
    resp.extend_from_slice(b"5:token2:tk6:valuesl6:\x0a\x00\x00\x09\x1a\xe1ee1:t2:\x01\x021:y1:re");
    let now = Instant::now();
    assert!(matches!(
        state.on_packet(&resp, packet_from(1), now).unwrap(),
        PacketAction::Nothing
    ));
    // The sender is known, though what it said was not asked for.
    assert_eq!(state.closest(&NodeId([0; 20]), 10).len(), 1);
    state.await_response(0x0102);
    state.await_response(0x0103);
    state.forget(0x0103);
    match state.on_packet(&resp, packet_from(1), now).unwrap() {
        PacketAction::Deliver { tid, events } => {
            assert_eq!(tid, 0x0102);
            assert_eq!(events.len(), 3);
            assert!(matches!(&events[0], DhtEvent::Peers(p) if p == &vec![packet_from(9)]));
            assert!(matches!(&events[1], DhtEvent::Nodes(n) if n[0].addr == packet_from(2)));
            assert!(
                matches!(&events[2], DhtEvent::Token { node_id, token } if node_id.0 == [b'a'; 20] && token == b"tk")
            );
        }
        _ => panic!("expected a delivery"),
    }
    assert_eq!(state.closest(&NodeId([0; 20]), 10).len(), 2);
    assert!(matches!(
        state.on_packet(&resp, packet_from(1), now).unwrap(),
        PacketAction::Nothing
    ));
}

#[test]
fn a_lookup_asks_everyone_once() {
    let mut lookup = Lookup::new(vec![make_node([1; 20], 1), make_node([2; 20], 2)], 2);
    assert!(lookup.next(true).is_none());
    assert_eq!(lookup.next(false).unwrap().addr, packet_from(1));
    lookup.on_event(DhtEvent::Nodes(vec![
        make_node([1; 20], 1),
        make_node([3; 20], 3),
    ]));
    lookup.on_event(DhtEvent::Token {
        node_id: NodeId([1; 20]),
        token: b"old".to_vec(),
    });
    lookup.on_event(DhtEvent::Token {
        node_id: NodeId([1; 20]),
        token: b"new".to_vec(),
    });
    lookup.on_event(DhtEvent::Token {
        node_id: NodeId([9; 20]),
        token: b"far".to_vec(),
    });
    assert_eq!(lookup.next(false).unwrap().addr, packet_from(2));
    assert_eq!(lookup.next(false).unwrap().addr, packet_from(3));
    assert!(lookup.next(false).is_none());
    lookup.on_event(DhtEvent::Peers(vec![
        packet_from(7),
        packet_from(8),
        packet_from(9),
    ]));
    assert_eq!(
        lookup.announcements(&vec![make_node([1; 20], 1)]),
        vec![(packet_from(1), b"new".to_vec())]
    );
    assert_eq!(lookup.into_peers(), vec![packet_from(7), packet_from(8)]);
}

#[test]
fn a_lookup_stops_when_enough_is_found() {
    let mut lookup = Lookup::new(vec![make_node([1; 20], 1)], 1);
    lookup.on_event(DhtEvent::Peers(vec![packet_from(7)]));
    assert!(lookup.next(false).is_none());
}

#[test]
fn a_query_of_ours_is_a_valid_message() {
    let mut args = Dict::new();
    args.insert(b"target".to_vec(), Value::Bytes(vec![1; 20]));
    let q = build_query("find_node", b"tt", &NodeId([2; 20]), args);
    assert_eq!(q.get_str(b"q"), Some("find_node"));
    assert_eq!(q.get_str(b"y"), Some("q"));
    assert_eq!(
        q.get(b"a").unwrap().get_bytes(b"id"),
        Some([2u8; 20].as_ref())
    );
    assert_eq!(decode(&bencode_encode(&q)).unwrap(), q);
}

//! Kademlia DHT (BEP-5) — bootstrap, routing table, and `get_peers` lookup.
//!
//! This implementation provides the peer-discovery path only:
//!   bootstrap → ping known nodes → find_node walk → get_peers → announce_peer

use std::collections::HashSet;
use std::time::Instant;

use vstd::prelude::*;
use vstd::slice::slice_to_vec;
use vstd::string::StringSliceAdditionalSpecFns;
use vstd::utf8::is_ascii_chars_encode_utf8;

use crate::bencode::{
    bencode_encode, decode, encode, finite, lemma_decode_encode, lemma_lengths_fit, lemma_trees_of,
    trees_of, value_at, Dict, Tree, Value,
};
use crate::error::{Error, Result};
use crate::octets::{
    append_be16, array20, be16, differs_at, from_be16, lemma_be_round_trip, lemma_precedes_asymmetric, lemma_precedes_irreflexive,
    lemma_precedes_total, lemma_precedes_transitive, order_bytes, precedes, same_bytes, u16_be,
    Order,
};
use crate::random::{random_bytes, random_u16};
use crate::text::same_str;
use crate::types::{
    compact4, compact_bytes, endpoints, lemma_compact_entry, read_compact4, same_addr, Endpoint,
    InfoHash, PeerAddr,
};

verus! {

/// A point in time of the machine's clock.
#[verifier::external_type_specification]
#[verifier::external_body]
pub struct ExInstant(std::time::Instant);

// Node ID

/// 160-bit DHT node ID.
#[derive(Clone, Copy, PartialEq, Eq, Hash, PartialOrd, Ord, Debug)]
pub struct NodeId(pub [u8; 20]);

/// The XOR of two ids.
pub open spec fn distance(a: Seq<u8>, b: Seq<u8>) -> Seq<u8> {
    Seq::new(20, |i: int| a[i] ^ b[i])
}

impl NodeId {
    /// Generate a cryptographically random node ID.
    pub fn random() -> (r: Self)
        ensures
            r.0@.len() == 20,
    {
        let bytes = random_bytes(20);
        NodeId(array20(bytes.as_slice(), 0))
    }

    /// XOR distance metric.
    pub fn distance(&self, other: &NodeId) -> (d: [u8; 20])
        ensures
            d@ == distance(self.0@, other.0@),
    {
        let mut d: [u8; 20] = [0u8; 20];
        let mut i: usize = 0;
        while i < 20
            invariant
                i <= 20,
                forall|k: int| 0 <= k < i ==> #[trigger] d@[k] == self.0@[k] ^ other.0@[k],
            decreases 20 - i,
        {
            d[i] = self.0[i] ^ other.0[i];
            i = i + 1;
        }
        assert(d@ =~= distance(self.0@, other.0@));
        d
    }

    /// Return the raw 20 bytes of the node ID.
    pub fn as_bytes(&self) -> (r: &[u8; 20])
        ensures
            *r == self.0,
    {
        &self.0
    }
}

/// The distance is symmetric, and zero only between equal ids.
pub proof fn lemma_distance_is_symmetric(a: Seq<u8>, b: Seq<u8>)
    requires
        a.len() == 20,
        b.len() == 20,
    ensures
        distance(a, b) == distance(b, a),
        distance(a, b) == Seq::new(20, |i: int| 0u8) <==> a == b,
{
    assert forall|i: int| 0 <= i < 20 implies distance(a, b)[i] == distance(b, a)[i] && (distance(
        a,
        b,
    )[i] == 0 <==> a[i] == b[i]) by {
        lemma_xor(a[i], b[i], 0);
    }
    assert(distance(a, b) =~= distance(b, a));
    let zero = Seq::new(20, |i: int| 0u8);
    if distance(a, b) == zero {
        assert forall|i: int| 0 <= i < 20 implies a[i] == b[i] by {
            assert(zero[i] == 0);
        }
        assert(a =~= b);
    }
    if a == b {
        assert(distance(a, b) =~= zero);
    }
}

proof fn lemma_xor(a: u8, b: u8, c: u8)
    by (bit_vector)
    ensures
        a ^ b == b ^ a,
        a ^ b == 0 <==> a == b,
        a ^ c == b ^ c ==> a == b,
{
}

/// Different ids have different distances from a target.
pub proof fn lemma_distance_injective(a: Seq<u8>, b: Seq<u8>, target: Seq<u8>)
    requires
        a.len() == 20,
        b.len() == 20,
        distance(a, target) == distance(b, target),
    ensures
        a == b,
{
    assert forall|i: int| 0 <= i < 20 implies a[i] == b[i] by {
        assert(distance(a, target)[i] == a[i] ^ target[i]);
        assert(distance(b, target)[i] == b[i] ^ target[i]);
        lemma_xor(a[i], b[i], target[i]);
    }
    assert(a =~= b);
}

// Bootstrap nodes

/// Well-known bootstrap nodes used to enter the DHT network.
pub const BOOTSTRAP_NODES: [&'static str; 3] = [
    "router.bittorrent.com:6881",
    "router.utorrent.com:6881",
    "dht.transmissionbt.com:6881",
];

// Routing table

/// A single node record stored in the routing table.
#[derive(Clone, Copy, Debug)]
pub struct DhtNode {
    pub id: NodeId,
    pub addr: PeerAddr,
    pub last_seen: Instant,
}

/// Number of nodes that a lookup starts from.
pub const K: usize = 20;

/// Most nodes that the routing table holds.
pub const TABLE_SIZE: usize = 160;

/// Simplified flat routing table (not a full k-bucket tree).
pub struct RoutingTable {
    nodes: Vec<DhtNode>,
}

/// The content of a [`DhtNode`].
#[verifier::ext_equal]
pub struct NodeInfo {
    pub id: Seq<u8>,
    pub addr: Endpoint,
    pub last_seen: Instant,
}

impl View for DhtNode {
    type V = NodeInfo;

    open spec fn view(&self) -> NodeInfo {
        NodeInfo { id: self.id.0@, addr: self.addr@, last_seen: self.last_seen }
    }
}

/// The contents of a sequence of nodes.
pub open spec fn infos(nodes: Seq<DhtNode>) -> Seq<NodeInfo> {
    nodes.map_values(|n: DhtNode| n@)
}

/// Whether no two nodes have the same id.
pub open spec fn unique(nodes: Seq<NodeInfo>) -> bool {
    forall|i: int, j: int|
        0 <= i < j < nodes.len() ==> (#[trigger] nodes[i]).id != (#[trigger] nodes[j]).id
}

/// Whether a node has the given id.
pub open spec fn has_id(nodes: Seq<NodeInfo>, id: Seq<u8>) -> bool {
    exists|i: int| 0 <= i < nodes.len() && (#[trigger] nodes[i]).id == id
}

/// The index of the node with the given id.
pub open spec fn index_of_id(nodes: Seq<NodeInfo>, id: Seq<u8>) -> int {
    choose|i: int| 0 <= i < nodes.len() && (#[trigger] nodes[i]).id == id
}

/// The nodes after one was added: it replaces the one with its id, or is
/// appended if there is room.
pub open spec fn added(nodes: Seq<NodeInfo>, node: NodeInfo) -> Seq<NodeInfo> {
    if has_id(nodes, node.id) {
        nodes.update(index_of_id(nodes, node.id), node)
    } else if nodes.len() < TABLE_SIZE {
        nodes.push(node)
    } else {
        nodes
    }
}

/// The nodes after several were added, one after the other.
pub open spec fn added_all(nodes: Seq<NodeInfo>, new: Seq<NodeInfo>) -> Seq<NodeInfo>
    decreases new.len(),
{
    if new.len() == 0 {
        nodes
    } else {
        added(added_all(nodes, new.drop_last()), new.last())
    }
}

/// Whether a node is closer to the target than another.
pub open spec fn closer(a: NodeInfo, b: NodeInfo, target: Seq<u8>) -> bool {
    precedes(distance(a.id, target), distance(b.id, target))
}

/// Whether nodes stand in the order of their distance from the target.
pub open spec fn by_distance(nodes: Seq<NodeInfo>, target: Seq<u8>) -> bool {
    forall|i: int, j: int|
        0 <= i < j < nodes.len() ==> closer(#[trigger] nodes[i], #[trigger] nodes[j], target)
}

/// Whether `r` holds the `k` nodes that are closest to the target, the closest first.
pub open spec fn is_closest(
    r: Seq<NodeInfo>,
    nodes: Seq<NodeInfo>,
    target: Seq<u8>,
    k: nat,
) -> bool {
    &&& r.len() == if k <= nodes.len() {
        k
    } else {
        nodes.len()
    }
    &&& by_distance(r, target)
    &&& forall|i: int| 0 <= i < r.len() ==> nodes.contains(#[trigger] r[i])
    &&& forall|x: NodeInfo, i: int|
        nodes.contains(x) && !r.contains(x) && 0 <= i < r.len() ==> #[trigger] closer(
            r[i],
            x,
            target,
        )
}

impl View for RoutingTable {
    type V = Seq<NodeInfo>;

    closed spec fn view(&self) -> Seq<NodeInfo> {
        infos(self.nodes@)
    }
}

impl RoutingTable {
    #[verifier::type_invariant]
    spec fn well_formed(self) -> bool {
        unique(infos(self.nodes@)) && self.nodes@.len() <= TABLE_SIZE
    }

    /// Create an empty routing table.
    pub fn new() -> (t: Self)
        ensures
            t@ == Seq::<NodeInfo>::empty(),
    {
        let t = RoutingTable { nodes: Vec::new() };
        assert(t@ =~= Seq::<NodeInfo>::empty());
        t
    }

    /// Add or refresh a node in the routing table.
    pub fn add(&mut self, node: DhtNode)
        ensures
            final(self)@ == added(old(self)@, node@),
            unique(final(self)@),
            final(self)@.len() <= TABLE_SIZE,
    {
        proof {
            use_type_invariant(&*self);
        }
        let mut nodes: Vec<DhtNode> = Vec::new();
        assert(infos(nodes@) =~= seq![]);
        std::mem::swap(&mut nodes, &mut self.nodes);
        add_node(&mut nodes, node);
        self.nodes = nodes;
    }

    /// Add or refresh several nodes.
    pub fn add_all(&mut self, new: &Vec<DhtNode>)
        ensures
            final(self)@ == added_all(old(self)@, infos(new@)),
    {
        let ghost all = infos(new@);
        let mut i: usize = 0;
        assert(all.take(0) =~= seq![]);
        while i < new.len()
            invariant
                i <= new.len(),
                all == infos(new@),
                self@ == added_all(old(self)@, all.take(i as int)),
            decreases new.len() - i,
        {
            self.add(new[i]);
            assert(all.take(i + 1).drop_last() =~= all.take(i as int));
            assert(all.take(i + 1).last() == new@[i as int]@);
            i = i + 1;
        }
        assert(all.take(i as int) =~= all);
    }

    /// Return the K closest nodes to `target`.
    pub fn closest(&self, target: &NodeId, k: usize) -> (r: Vec<DhtNode>)
        ensures
            is_closest(infos(r@), self@, target.0@, k as nat),
    {
        proof {
            use_type_invariant(self);
        }
        let ghost nodes = infos(self.nodes@);
        let mut sorted: Vec<DhtNode> = Vec::new();
        let mut i: usize = 0;
        while i < self.nodes.len()
            invariant
                i <= self.nodes.len(),
                nodes == infos(self.nodes@),
                unique(nodes),
                sorted@.len() == i,
                by_distance(infos(sorted@), target.0@),
                forall|j: int| 0 <= j < i ==> infos(sorted@).contains(#[trigger] nodes[j]),
                forall|j: int|
                    0 <= j < i ==> exists|n: int|
                        0 <= n < i && nodes[n] == #[trigger] infos(sorted@)[j],
            decreases self.nodes.len() - i,
        {
            let node = self.nodes[i];
            let ghost before = infos(sorted@);
            proof {
                assert(nodes[i as int] == node@);
                assert forall|j: int| 0 <= j < before.len() implies (#[trigger] before[j]).id
                    != node@.id by {
                    let n = choose|n: int| 0 <= n < i && nodes[n] == before[j];
                    assert(nodes[n].id != nodes[i as int].id);
                }
            }
            insert_by_distance(&mut sorted, node, target);
            proof {
                let after = infos(sorted@);
                let at = choose|at: int|
                    0 <= at <= before.len() && after == #[trigger] before.insert(at, node@);
                assert(after[at] == node@);
                assert forall|j: int| 0 <= j < i + 1 implies after.contains(#[trigger] nodes[j]) by {
                    if j < i {
                        assert(before.contains(nodes[j]));
                        let x = choose|x: int| 0 <= x < before.len() && before[x] == nodes[j];
                        if x < at {
                            assert(after[x] == nodes[j]);
                        } else {
                            assert(after[x + 1] == nodes[j]);
                        }
                    }
                }
                assert forall|j: int| 0 <= j < i + 1 implies exists|n: int|
                    0 <= n < i + 1 && nodes[n] == #[trigger] after[j] by {
                    if j == at {
                        assert(nodes[i as int] == after[j]);
                    } else {
                        let x = if j < at {
                            j
                        } else {
                            j - 1
                        };
                        assert(after[j] == before[x]);
                        let n = choose|n: int| 0 <= n < i && nodes[n] == before[x];
                        assert(nodes[n] == after[j]);
                    }
                }
            }
            i = i + 1;
        }
        let ghost all = infos(sorted@);
        proof {
            assert forall|j: int| 0 <= j < all.len() implies nodes.contains(#[trigger] all[j]) by {
                let n = choose|n: int| 0 <= n < i && nodes[n] == all[j];
                assert(nodes[n] == all[j]);
            }
        }
        sorted.truncate(k);
        proof {
            let r = infos(sorted@);
            assert(forall|j: int| 0 <= j < r.len() ==> r[j] == all[j]);
            assert forall|x: NodeInfo, j: int|
                nodes.contains(x) && !r.contains(x) && 0 <= j < r.len() implies #[trigger] closer(
                r[j],
                x,
                target.0@,
            ) by {
                let n = choose|n: int| 0 <= n < nodes.len() && nodes[n] == x;
                assert(all.contains(nodes[n]));
                let m = choose|m: int| 0 <= m < all.len() && all[m] == x;
                if m < r.len() {
                    assert(r[m] == x);
                }
                assert(closer(all[j], all[m], target.0@));
            }
        }
        sorted
    }

    /// Return the number of nodes currently in the routing table.
    pub fn len(&self) -> (n: usize)
        ensures
            n == self@.len(),
            n <= TABLE_SIZE,
    {
        proof {
            use_type_invariant(self);
        }
        self.nodes.len()
    }

    /// Return true if the routing table has no nodes.
    pub fn is_empty(&self) -> (r: bool)
        ensures
            r == (self@.len() == 0),
    {
        self.nodes.len() == 0
    }
}

fn add_node(nodes: &mut Vec<DhtNode>, node: DhtNode)
    requires
        unique(infos(old(nodes)@)),
        old(nodes)@.len() <= TABLE_SIZE,
    ensures
        infos(final(nodes)@) == added(infos(old(nodes)@), node@),
        unique(infos(final(nodes)@)),
        final(nodes)@.len() <= TABLE_SIZE,
{
    let ghost before = infos(nodes@);
    let mut i: usize = 0;
    while i < nodes.len()
        invariant
            i <= nodes.len(),
            before == infos(old(nodes)@),
            nodes@ == old(nodes)@,
            unique(before),
            before.len() <= TABLE_SIZE,
            forall|j: int| 0 <= j < i ==> (#[trigger] before[j]).id != node@.id,
        decreases nodes.len() - i,
    {
        assert(before[i as int] == nodes@[i as int]@);
        if same_bytes(nodes[i].id.0.as_slice(), node.id.0.as_slice()) {
            proof {
                assert(before[i as int].id == node@.id);
                assert(has_id(before, node@.id));
                let c = index_of_id(before, node@.id);
                if c != i {
                    assert(before[c].id != before[i as int].id);
                }
            }
            nodes[i] = node;
            assert(infos(nodes@) =~= before.update(i as int, node@));
            return ;
        }
        i = i + 1;
    }
    if nodes.len() < TABLE_SIZE {
        nodes.push(node);
        assert(infos(nodes@) =~= before.push(node@));
    }
}

/// Put a node into its place among nodes that are sorted by distance.
fn insert_by_distance(sorted: &mut Vec<DhtNode>, node: DhtNode, target: &NodeId)
    requires
        by_distance(infos(old(sorted)@), target.0@),
        forall|j: int|
            0 <= j < old(sorted)@.len() ==> (#[trigger] infos(old(sorted)@)[j]).id != node@.id,
    ensures
        by_distance(infos(final(sorted)@), target.0@),
        exists|at: int|
            0 <= at <= old(sorted)@.len() && infos(final(sorted)@) == #[trigger] infos(
                old(sorted)@,
            ).insert(at, node@),
{
    let ghost before = infos(sorted@);
    let d = node.id.distance(target);
    let mut at: usize = 0;
    while at < sorted.len()
        invariant_except_break
            at <= sorted.len(),
        invariant
            before == infos(old(sorted)@),
            sorted@ == old(sorted)@,
            d@ == distance(node@.id, target.0@),
            by_distance(before, target.0@),
            forall|j: int| 0 <= j < before.len() ==> (#[trigger] before[j]).id != node@.id,
            forall|j: int| 0 <= j < at ==> closer(#[trigger] before[j], node@, target.0@),
        ensures
            at <= before.len(),
            at < before.len() ==> closer(node@, before[at as int], target.0@),
        decreases sorted.len() - at,
    {
        let other = sorted[at].id.distance(target);
        proof {
            assert(before[at as int] == sorted@[at as int]@);
            if distance(before[at as int].id, target.0@) == d@ {
                lemma_distance_injective(before[at as int].id, node@.id, target.0@);
            }
        }
        match order_bytes(other.as_slice(), d.as_slice()) {
            Order::Less => {
                at = at + 1;
            },
            _ => {
                proof {
                    lemma_precedes_total(other@, d@);
                }
                break ;
            },
        }
    }
    sorted.insert(at, node);
    proof {
        let after = infos(sorted@);
        assert(after =~= before.insert(at as int, node@));
        assert forall|i: int, j: int| 0 <= i < j < after.len() implies closer(
            #[trigger] after[i],
            #[trigger] after[j],
            target.0@,
        ) by {
            let u = if i < at {
                i
            } else {
                i - 1
            };
            let w = if j < at {
                j
            } else {
                j - 1
            };
            if i != at && j != at {
                assert(after[i] == before[u] && after[j] == before[w]);
                assert(closer(before[u], before[w], target.0@));
            } else if j == at {
                assert(after[i] == before[i]);
            } else {
                assert(after[j] == before[j - 1]);
                if j - 1 > at {
                    assert(closer(before[at as int], before[j - 1], target.0@));
                    lemma_precedes_transitive(
                        distance(node@.id, target.0@),
                        distance(before[at as int].id, target.0@),
                        distance(before[j - 1].id, target.0@),
                    );
                }
            }
        }
    }
}

// Messages

/// A byte string as a value.
pub open spec fn text_tree(s: &str) -> Tree {
    Tree::Bytes(s.spec_bytes())
}

/// A query: what is asked, under which transaction, by whom, and its arguments.
pub open spec fn query_tree(
    method: Seq<u8>,
    tid: Seq<u8>,
    own_id: Seq<u8>,
    args: Map<Seq<u8>, Tree>,
) -> Tree {
    Tree::Dict(
        map![
            "t".spec_bytes() => Tree::Bytes(tid),
            "y".spec_bytes() => text_tree("q"),
            "q".spec_bytes() => Tree::Bytes(method),
            "a".spec_bytes() => Tree::Dict(args.insert("id".spec_bytes(), Tree::Bytes(own_id))),
        ],
    )
}

/// A `find_node` query for a target.
pub open spec fn find_node_tree(tid: Seq<u8>, own_id: Seq<u8>, target: Seq<u8>) -> Tree {
    query_tree(
        "find_node".spec_bytes(),
        tid,
        own_id,
        map!["target".spec_bytes() => Tree::Bytes(target)],
    )
}

/// A `get_peers` query for a torrent.
pub open spec fn get_peers_tree(tid: Seq<u8>, own_id: Seq<u8>, info_hash: Seq<u8>) -> Tree {
    query_tree(
        "get_peers".spec_bytes(),
        tid,
        own_id,
        map!["info_hash".spec_bytes() => Tree::Bytes(info_hash)],
    )
}

/// An `announce_peer` query with the token that the node gave; the port is the
/// one that the packet comes from.
pub open spec fn announce_peer_tree(
    tid: Seq<u8>,
    own_id: Seq<u8>,
    info_hash: Seq<u8>,
    token: Seq<u8>,
) -> Tree {
    query_tree(
        "announce_peer".spec_bytes(),
        tid,
        own_id,
        map![
            "info_hash".spec_bytes() => Tree::Bytes(info_hash),
            "port".spec_bytes() => Tree::Int(0),
            "token".spec_bytes() => Tree::Bytes(token),
            "implied_port".spec_bytes() => Tree::Int(1),
        ],
    )
}

/// The answer to a ping.
pub open spec fn pong_tree(t: Seq<u8>, own_id: Seq<u8>) -> Tree {
    Tree::Dict(
        map![
            "y".spec_bytes() => text_tree("r"),
            "t".spec_bytes() => Tree::Bytes(t),
            "r".spec_bytes() => Tree::Dict(map!["id".spec_bytes() => Tree::Bytes(own_id)]),
        ],
    )
}

fn owned(s: &[u8]) -> (r: Vec<u8>)
    ensures
        r@ == s@,
{
    slice_to_vec(s)
}

fn put_bytes(d: &mut Dict, key: &str, value: &[u8])
    ensures
        final(d)@ == old(d)@.insert(key.spec_bytes(), Tree::Bytes(value@)),
{
    d.insert(owned(key.as_bytes()), Value::Bytes(owned(value)));
}

/// A query with the given arguments.
pub fn build_query(method: &str, tid: &[u8], own_id: &NodeId, args: Dict) -> (v: Value)
    ensures
        v@ == query_tree(method.spec_bytes(), tid@, own_id.0@, args@),
{
    let mut a = args;
    put_bytes(&mut a, "id", own_id.0.as_slice());
    let mut msg = Dict::new();
    put_bytes(&mut msg, "t", tid);
    put_bytes(&mut msg, "y", "q".as_bytes());
    put_bytes(&mut msg, "q", method.as_bytes());
    msg.insert(owned("a".as_bytes()), Value::Dict(a));
    assert(msg@ =~= map![
        "t".spec_bytes() => Tree::Bytes(tid@),
        "y".spec_bytes() => text_tree("q"),
        "q".spec_bytes() => Tree::Bytes(method.spec_bytes()),
        "a".spec_bytes() => Tree::Dict(args@.insert("id".spec_bytes(), Tree::Bytes(own_id.0@))),
    ]);
    Value::Dict(msg)
}

/// The packet of a `find_node` query.
pub fn find_node_packet(tid: &[u8], own_id: &NodeId, target: &NodeId) -> (r: Vec<u8>)
    ensures
        r@ == encode(find_node_tree(tid@, own_id.0@, target.0@)),
{
    let mut args = Dict::new();
    put_bytes(&mut args, "target", target.0.as_slice());
    assert(args@ =~= map!["target".spec_bytes() => Tree::Bytes(target.0@)]);
    bencode_encode(&build_query("find_node", tid, own_id, args))
}

/// The packet of a `get_peers` query.
pub fn get_peers_packet(tid: &[u8], own_id: &NodeId, info_hash: &InfoHash) -> (r: Vec<u8>)
    ensures
        r@ == encode(get_peers_tree(tid@, own_id.0@, info_hash.0@)),
{
    let mut args = Dict::new();
    put_bytes(&mut args, "info_hash", info_hash.0.as_slice());
    assert(args@ =~= map!["info_hash".spec_bytes() => Tree::Bytes(info_hash.0@)]);
    bencode_encode(&build_query("get_peers", tid, own_id, args))
}

/// The packet of an `announce_peer` query.
pub fn announce_peer_packet(
    tid: &[u8],
    own_id: &NodeId,
    info_hash: &InfoHash,
    token: &[u8],
) -> (r: Vec<u8>)
    ensures
        r@ == encode(announce_peer_tree(tid@, own_id.0@, info_hash.0@, token@)),
{
    let mut args = Dict::new();
    put_bytes(&mut args, "info_hash", info_hash.0.as_slice());
    args.insert(owned("port".as_bytes()), Value::Int(0));
    put_bytes(&mut args, "token", token);
    args.insert(owned("implied_port".as_bytes()), Value::Int(1));
    assert(args@ =~= map![
        "info_hash".spec_bytes() => Tree::Bytes(info_hash.0@),
        "port".spec_bytes() => Tree::Int(0),
        "token".spec_bytes() => Tree::Bytes(token@),
        "implied_port".spec_bytes() => Tree::Int(1),
    ]);
    bencode_encode(&build_query("announce_peer", tid, own_id, args))
}

/// The packet that answers a ping.
pub fn pong_packet(t: &[u8], own_id: &NodeId) -> (r: Vec<u8>)
    ensures
        r@ == encode(pong_tree(t@, own_id.0@)),
{
    let mut inner = Dict::new();
    put_bytes(&mut inner, "id", own_id.0.as_slice());
    assert(inner@ =~= map!["id".spec_bytes() => Tree::Bytes(own_id.0@)]);
    let mut resp = Dict::new();
    put_bytes(&mut resp, "y", "r".as_bytes());
    put_bytes(&mut resp, "t", t);
    resp.insert(owned("r".as_bytes()), Value::Dict(inner));
    assert(resp@ =~= map![
        "y".spec_bytes() => text_tree("r"),
        "t".spec_bytes() => Tree::Bytes(t@),
        "r".spec_bytes() => Tree::Dict(map!["id".spec_bytes() => Tree::Bytes(own_id.0@)]),
    ]);
    bencode_encode(&Value::Dict(resp))
}

/// A fresh transaction id.
pub fn fresh_tid() -> (tid: Vec<u8>)
    ensures
        tid@.len() == 2,
{
    let mut tid: Vec<u8> = Vec::new();
    append_be16(&mut tid, random_u16());
    tid
}

/// The node in 26 bytes: 20 id + 4 IPv4 + 2 port.
pub open spec fn compact_node(s: Seq<u8>, now: Instant) -> NodeInfo {
    NodeInfo { id: s.take(20), addr: compact4(s.skip(20)), last_seen: now }
}

/// The nodes in a string of 26-byte entries; an incomplete one is left out.
pub open spec fn compact_nodes(raw: Seq<u8>, now: Instant) -> Seq<NodeInfo> {
    Seq::new(raw.len() / 26, |i: int| compact_node(raw.subrange(26 * i, 26 * i + 26), now))
}

/// Parse compact node info: 26-byte entries (20 id + 4 IPv4 + 2 port).
pub fn parse_compact_nodes(data: &[u8], now: Instant) -> (nodes: Vec<DhtNode>)
    ensures
        infos(nodes@) == compact_nodes(data@, now),
{
    let n: usize = data.len() / 26;
    let mut nodes: Vec<DhtNode> = Vec::new();
    let mut i: usize = 0;
    while i < n
        invariant
            i <= n == data.len() / 26,
            infos(nodes@) == compact_nodes(data@, now).take(i as int),
        decreases n - i,
    {
        let at: usize = 26 * i;
        let node = DhtNode {
            id: NodeId(array20(data, at)),
            addr: read_compact4(data, at + 20),
            last_seen: now,
        };
        proof {
            let s = data@.subrange(26 * i, 26 * i + 26);
            assert(s.take(20) =~= data@.subrange(at as int, at + 20));
            assert(s.skip(20) =~= data@.subrange(at + 20, at + 26));
            assert(node@ == compact_node(s, now));
        }
        let ghost before = nodes@;
        nodes.push(node);
        assert(infos(nodes@) =~= infos(before).push(node@));
        i = i + 1;
        assert(infos(nodes@) =~= compact_nodes(data@, now).take(i as int));
    }
    assert(compact_nodes(data@, now).take(i as int) =~= compact_nodes(data@, now));
    nodes
}

/// The peers among the values of a list: the 6-byte strings.
pub open spec fn listed_peers(list: Seq<Tree>) -> Seq<Endpoint>
    decreases list.len(),
{
    if list.len() == 0 {
        seq![]
    } else {
        let head = listed_peers(list.drop_last());
        match list.last().as_bytes() {
            Some(b) => if b.len() == 6 {
                head.push(compact4(b))
            } else {
                head
            },
            None => head,
        }
    }
}

/// The peers in a value of a response.
pub open spec fn peers_of(v: Tree) -> Seq<Endpoint> {
    match v.as_list() {
        Some(list) => listed_peers(list),
        None => seq![],
    }
}

/// Parse a BEP-5 peers list (a bencoded list of 6-byte compact peer strings).
pub fn parse_peers_list(v: &Value) -> (out: Vec<PeerAddr>)
    ensures
        endpoints(out@) == peers_of(v@),
{
    let mut out: Vec<PeerAddr> = Vec::new();
    assert(endpoints(out@) =~= seq![]);
    if let Some(list) = v.as_list() {
        let ghost trees = trees_of(list@);
        proof {
            lemma_trees_of(list@);
            assert(trees.take(0) =~= seq![]);
        }
        let mut i: usize = 0;
        while i < list.len()
            invariant
                i <= list.len(),
                trees == trees_of(list@),
                trees.len() == list@.len(),
                forall|j: int| 0 <= j < trees.len() ==> #[trigger] trees[j] == list@[j]@,
                endpoints(out@) == listed_peers(trees.take(i as int)),
            decreases list.len() - i,
        {
            proof {
                assert(trees.take(i + 1).drop_last() =~= trees.take(i as int));
                assert(trees.take(i + 1).last() == list@[i as int]@);
            }
            if let Some(b) = list[i].as_bytes() {
                if b.len() == 6 {
                    let ghost before = out@;
                    let a = read_compact4(b, 0);
                    assert(b@.subrange(0, 6) =~= b@);
                    out.push(a);
                    assert(endpoints(out@) =~= endpoints(before).push(a@));
                }
            }
            i = i + 1;
        }
        assert(trees.take(i as int) =~= trees);
    }
    out
}

// Packets

/// What a response told the one who asked.
#[derive(Debug)]
pub enum DhtEvent {
    Peers(Vec<PeerAddr>),
    Nodes(Vec<DhtNode>),
    Token { node_id: NodeId, token: Vec<u8> },
}

/// The content of a [`DhtEvent`].
pub enum News {
    Peers(Seq<Endpoint>),
    Nodes(Seq<NodeInfo>),
    Token(Seq<u8>, Seq<u8>),
}

impl View for DhtEvent {
    type V = News;

    open spec fn view(&self) -> News {
        match *self {
            DhtEvent::Peers(p) => News::Peers(endpoints(p@)),
            DhtEvent::Nodes(n) => News::Nodes(infos(n@)),
            DhtEvent::Token { node_id, token } => News::Token(node_id.0@, token@),
        }
    }
}

/// The contents of a sequence of events.
pub open spec fn news(s: Seq<DhtEvent>) -> Seq<News> {
    s.map_values(|e: DhtEvent| e@)
}

/// Our side of the DHT: who we are, whom we know, and which queries are open.
pub struct DhtState {
    own_id: NodeId,
    table: RoutingTable,
    /// Transaction ids of the queries that wait for a response.
    pending: HashSet<u16>,
}

/// The content of a [`DhtState`].
#[verifier::ext_equal]
pub struct Known {
    pub own_id: Seq<u8>,
    pub nodes: Seq<NodeInfo>,
    pub pending: Set<u16>,
}

/// What to do about a packet.
pub enum PacketAction {
    Nothing,
    /// Send this to where the packet came from.
    Send(Vec<u8>),
    /// Tell the one who asked under this transaction id.
    Deliver { tid: u16, events: Vec<DhtEvent> },
}

/// The content of a [`PacketAction`].
pub enum Reaction {
    Nothing,
    Send(Seq<u8>),
    Deliver(u16, Seq<News>),
}

impl View for PacketAction {
    type V = Reaction;

    open spec fn view(&self) -> Reaction {
        match *self {
            PacketAction::Nothing => Reaction::Nothing,
            PacketAction::Send(p) => Reaction::Send(p@),
            PacketAction::Deliver { tid, events } => Reaction::Deliver(tid, news(events@)),
        }
    }
}

/// The bytes under a key, or none.
pub open spec fn bytes_or_none(t: Tree, key: Seq<u8>) -> Seq<u8> {
    match t.get_bytes(key) {
        Some(b) => b,
        None => seq![],
    }
}

/// The id of the node that a response comes from, if it is one.
pub open spec fn sender_id(r: Tree) -> Option<Seq<u8>> {
    match r.get_bytes("id".spec_bytes()) {
        Some(id) => if id.len() == 20 {
            Some(id)
        } else {
            None
        },
        None => None,
    }
}

/// What a response tells: its peers, its nodes, and the sender's token.
pub open spec fn news_of(r: Tree, now: Instant) -> Seq<News> {
    (match r.get("values".spec_bytes()) {
        Some(values) => seq![News::Peers(peers_of(values))],
        None => seq![],
    }) + (match r.get_bytes("nodes".spec_bytes()) {
        Some(raw) => seq![News::Nodes(compact_nodes(raw, now))],
        None => seq![],
    }) + (match (r.get_bytes("token".spec_bytes()), sender_id(r)) {
        (Some(token), Some(id)) => seq![News::Token(id, token)],
        _ => seq![],
    })
}

impl Known {
    /// The nodes after one that responds was seen.
    pub open spec fn seen(self, r: Tree, from: Endpoint, now: Instant) -> Known {
        match sender_id(r) {
            Some(id) => Known {
                nodes: added(self.nodes, NodeInfo { id, addr: from, last_seen: now }),
                ..self
            },
            None => self,
        }
    }

    /// What comes of a response. The sender is remembered in any case; what it
    /// tells counts only if we asked.
    pub open spec fn on_response(self, msg: Tree, from: Endpoint, now: Instant) -> (
        Known,
        Reaction,
    ) {
        let t = bytes_or_none(msg, "t".spec_bytes());
        match msg.get("r".spec_bytes()) {
            Some(r) if t.len() >= 2 => {
                let seen = self.seen(r, from, now);
                let tid = from_be16(t, 0);
                if self.pending.contains(tid) {
                    let next = Known {
                        nodes: match r.get_bytes("nodes".spec_bytes()) {
                            Some(raw) => added_all(seen.nodes, compact_nodes(raw, now)),
                            None => seen.nodes,
                        },
                        pending: self.pending.remove(tid),
                        ..seen
                    };
                    (next, Reaction::Deliver(tid, news_of(r, now)))
                } else {
                    (seen, Reaction::Nothing)
                }
            },
            _ => (self, Reaction::Nothing),
        }
    }

    /// What comes of a packet: responses are taken in, pings are answered, and
    /// everything else is ignored.
    pub open spec fn on_message(self, msg: Tree, from: Endpoint, now: Instant) -> (
        Known,
        Reaction,
    ) {
        match msg.get_str("y".spec_bytes()) {
            Some(y) => if y == "r"@ {
                self.on_response(msg, from, now)
            } else if y == "q"@ && msg.get_str("q".spec_bytes()) == Some("ping"@) {
                (
                    self,
                    Reaction::Send(
                        encode(pong_tree(bytes_or_none(msg, "t".spec_bytes()), self.own_id)),
                    ),
                )
            } else {
                (self, Reaction::Nothing)
            },
            None => (self, Reaction::Nothing),
        }
    }
}

impl View for DhtState {
    type V = Known;

    closed spec fn view(&self) -> Known {
        Known { own_id: self.own_id.0@, nodes: self.table@, pending: self.pending@ }
    }
}

/// Whether the text under a key is the given one.
fn text_is(v: &Value, key: &str, text: &str) -> (r: bool)
    ensures
        r == (v@.get_str(key.spec_bytes()) == Some(text@)),
{
    match v.get_str(key.as_bytes()) {
        Some(s) => same_str(s, text),
        None => false,
    }
}

/// The id of the node that a response comes from, if it is one.
fn read_sender_id(r: &Value) -> (id: Option<NodeId>)
    ensures
        match sender_id(r@) {
            Some(s) => id matches Some(n) && n.0@ == s,
            None => id is None,
        },
{
    match r.get_bytes("id".as_bytes()) {
        Some(b) => {
            if b.len() == 20 {
                let a = array20(b, 0);
                assert(a@ =~= b@);
                Some(NodeId(a))
            } else {
                None
            }
        },
        None => None,
    }
}

/// What a response tells.
fn read_news(r: &Value, now: Instant) -> (events: Vec<DhtEvent>)
    ensures
        news(events@) == news_of(r@, now),
{
    let mut events: Vec<DhtEvent> = Vec::new();
    if let Some(values) = r.get("values".as_bytes()) {
        events.push(DhtEvent::Peers(parse_peers_list(values)));
    }
    let ghost first = news(events@);
    if let Some(raw) = r.get_bytes("nodes".as_bytes()) {
        events.push(DhtEvent::Nodes(parse_compact_nodes(raw, now)));
    }
    if let Some(token) = r.get_bytes("token".as_bytes()) {
        if let Some(node_id) = read_sender_id(r) {
            events.push(DhtEvent::Token { node_id, token: owned(token) });
        }
    }
    assert(news(events@) =~= news_of(r@, now));
    events
}

impl DhtState {
    /// A node that knows nobody.
    pub fn new(own_id: NodeId) -> (s: DhtState)
        ensures
            s@ == (Known { own_id: own_id.0@, nodes: seq![], pending: Set::empty() }),
    {
        broadcast use vstd::std_specs::hash::group_hash_axioms;

        let s = DhtState { own_id, table: RoutingTable::new(), pending: HashSet::new() };
        assert(s@.pending =~= Set::empty());
        s
    }

    /// Our own id.
    pub fn own_id(&self) -> (id: NodeId)
        ensures
            id.0@ == self@.own_id,
    {
        self.own_id
    }

    /// The nodes that are closest to a target.
    pub fn closest(&self, target: &NodeId, k: usize) -> (r: Vec<DhtNode>)
        ensures
            is_closest(infos(r@), self@.nodes, target.0@, k as nat),
    {
        self.table.closest(target, k)
    }

    /// Wait for the response to a query.
    pub fn await_response(&mut self, tid: u16)
        ensures
            final(self)@ == (Known { pending: old(self)@.pending.insert(tid), ..old(self)@ }),
    {
        broadcast use vstd::std_specs::hash::group_hash_axioms;

        self.pending.insert(tid);
    }

    /// Stop waiting for the response to a query.
    pub fn forget(&mut self, tid: u16)
        ensures
            final(self)@ == (Known { pending: old(self)@.pending.remove(tid), ..old(self)@ }),
    {
        broadcast use vstd::std_specs::hash::group_hash_axioms;

        self.pending.remove(&tid);
    }

    fn handle_response(&mut self, msg: &Value, from: PeerAddr, now: Instant) -> (r: PacketAction)
        ensures
            (final(self)@, r@) == old(self)@.on_response(msg@, from@, now),
    {
        broadcast use vstd::std_specs::hash::group_hash_axioms;

        let tid: u16 = match msg.get_bytes("t".as_bytes()) {
            Some(t) => {
                if t.len() < 2 {
                    return PacketAction::Nothing;
                }
                u16_be(t, 0)
            },
            None => {
                return PacketAction::Nothing;
            },
        };
        let r = match msg.get("r".as_bytes()) {
            Some(r) => r,
            None => {
                return PacketAction::Nothing;
            },
        };
        if let Some(id) = read_sender_id(r) {
            self.table.add(DhtNode { id, addr: from, last_seen: now });
        }
        assert(self@ =~= old(self)@.seen(r@, from@, now));
        if !self.pending.contains(&tid) {
            return PacketAction::Nothing;
        }
        self.pending.remove(&tid);
        if let Some(raw) = r.get_bytes("nodes".as_bytes()) {
            let nodes = parse_compact_nodes(raw, now);
            self.table.add_all(&nodes);
        }
        PacketAction::Deliver { tid, events: read_news(r, now) }
    }

    /// Take in a packet.
    pub fn on_packet(&mut self, data: &[u8], from: PeerAddr, now: Instant) -> (r: Result<
        PacketAction,
    >)
        ensures
            match value_at(data@, 0) {
                Ok((msg, _)) => r matches Ok(a) && (final(self)@, a@) == old(self)@.on_message(
                    msg,
                    from@,
                    now,
                ),
                Err(e) => r matches Err(x) && x@ == Error::Bencode(e) && final(self)@ == old(self)@,
            },
    {
        let msg = match decode(data) {
            Ok(msg) => msg,
            Err(e) => {
                return Err(e);
            },
        };
        proof {
            reveal_strlit("r");
            reveal_strlit("q");
        }
        if text_is(&msg, "y", "r") {
            return Ok(self.handle_response(&msg, from, now));
        }
        if text_is(&msg, "y", "q") && text_is(&msg, "q", "ping") {
            let none: [u8; 0] = [];
            assert(none@ =~= seq![]);
            let t = match msg.get_bytes("t".as_bytes()) {
                Some(t) => t,
                None => none.as_slice(),
            };
            return Ok(PacketAction::Send(pong_packet(t, &self.own_id)));
        }
        Ok(PacketAction::Nothing)
    }
}

// Lookup

/// A search for the peers of a torrent: nodes are asked one after the other,
/// those that they name are asked in turn, and no address is asked twice.
pub struct Lookup {
    max: usize,
    queue: Vec<DhtNode>,
    visited: Vec<PeerAddr>,
    peers: Vec<PeerAddr>,
    tokens: TokenList,
}

/// The tokens that nodes gave, at most one for each node.
struct TokenList {
    entries: Vec<(NodeId, Vec<u8>)>,
}

/// The content of a [`Lookup`].
#[verifier::ext_equal]
pub struct Search {
    pub max: nat,
    /// The nodes to ask.
    pub queue: Seq<NodeInfo>,
    /// The addresses that have been asked.
    pub visited: Set<Endpoint>,
    pub peers: Seq<Endpoint>,
    /// The tokens that nodes gave, by the id of the node.
    pub tokens: Seq<(Seq<u8>, Seq<u8>)>,
}

pub open spec fn token_pairs(s: Seq<(NodeId, Vec<u8>)>) -> Seq<(Seq<u8>, Seq<u8>)> {
    s.map_values(|p: (NodeId, Vec<u8>)| (p.0.0@, p.1@))
}

/// Whether a node gave a token.
pub open spec fn has_token(tokens: Seq<(Seq<u8>, Seq<u8>)>, id: Seq<u8>) -> bool {
    exists|i: int| 0 <= i < tokens.len() && (#[trigger] tokens[i]).0 == id
}

/// The index of the token of a node.
pub open spec fn token_index(tokens: Seq<(Seq<u8>, Seq<u8>)>, id: Seq<u8>) -> int {
    choose|i: int| 0 <= i < tokens.len() && (#[trigger] tokens[i]).0 == id
}

/// Whether no node has two tokens.
pub open spec fn one_each(tokens: Seq<(Seq<u8>, Seq<u8>)>) -> bool {
    forall|i: int, j: int|
        0 <= i < j < tokens.len() ==> (#[trigger] tokens[i]).0 != (#[trigger] tokens[j]).0
}

/// The tokens after a node gave one; the last one that it gave stands.
pub open spec fn with_token(
    tokens: Seq<(Seq<u8>, Seq<u8>)>,
    id: Seq<u8>,
    token: Seq<u8>,
) -> Seq<(Seq<u8>, Seq<u8>)> {
    if has_token(tokens, id) {
        tokens.update(token_index(tokens, id), (id, token))
    } else {
        tokens.push((id, token))
    }
}

/// The nodes whose address has not been asked.
pub open spec fn unvisited(nodes: Seq<NodeInfo>, visited: Set<Endpoint>) -> Seq<NodeInfo>
    decreases nodes.len(),
{
    if nodes.len() == 0 {
        seq![]
    } else if visited.contains(nodes.last().addr) {
        unvisited(nodes.drop_last(), visited)
    } else {
        unvisited(nodes.drop_last(), visited).push(nodes.last())
    }
}

impl Search {
    /// Whether the search goes on.
    pub open spec fn wants_more(self, expired: bool) -> bool {
        !expired && self.peers.len() < self.max
    }

    /// The search after something was learnt.
    pub open spec fn with(self, e: News) -> Search {
        match e {
            News::Peers(p) => Search { peers: self.peers + p, ..self },
            News::Nodes(n) => Search { queue: self.queue + unvisited(n, self.visited), ..self },
            News::Token(id, token) => Search { tokens: with_token(self.tokens, id, token), ..self },
        }
    }
}

/// The address of the first node with an id.
pub open spec fn addr_of(nodes: Seq<NodeInfo>, id: Seq<u8>) -> Option<Endpoint>
    decreases nodes.len(),
{
    if nodes.len() == 0 {
        None
    } else if nodes[0].id == id {
        Some(nodes[0].addr)
    } else {
        addr_of(nodes.drop_first(), id)
    }
}

/// Whom to announce ourselves to, and with which token: the nodes that gave one
/// and are among the given ones.
pub open spec fn announce_list(
    tokens: Seq<(Seq<u8>, Seq<u8>)>,
    nodes: Seq<NodeInfo>,
) -> Seq<(Endpoint, Seq<u8>)>
    decreases tokens.len(),
{
    if tokens.len() == 0 {
        seq![]
    } else {
        let head = announce_list(tokens.drop_last(), nodes);
        match addr_of(nodes, tokens.last().0) {
            Some(a) => head.push((a, tokens.last().1)),
            None => head,
        }
    }
}

pub open spec fn announce_pairs(s: Seq<(PeerAddr, Vec<u8>)>) -> Seq<(Endpoint, Seq<u8>)> {
    s.map_values(|p: (PeerAddr, Vec<u8>)| (p.0@, p.1@))
}

/// Whether an address is among others.
fn contains_addr(list: &Vec<PeerAddr>, a: &PeerAddr) -> (r: bool)
    ensures
        r == endpoints(list@).to_set().contains(a@),
{
    let mut i: usize = 0;
    while i < list.len()
        invariant
            i <= list.len(),
            forall|j: int| 0 <= j < i ==> #[trigger] endpoints(list@)[j] != a@,
        decreases list.len() - i,
    {
        assert(endpoints(list@)[i as int] == list@[i as int]@);
        if same_addr(&list[i], a) {
            return true;
        }
        i = i + 1;
    }
    false
}

impl View for Lookup {
    type V = Search;

    closed spec fn view(&self) -> Search {
        Search {
            max: self.max as nat,
            queue: infos(self.queue@),
            visited: endpoints(self.visited@).to_set(),
            peers: endpoints(self.peers@),
            tokens: token_pairs(self.tokens.entries@),
        }
    }
}

impl TokenList {
    #[verifier::type_invariant]
    spec fn well_formed(self) -> bool {
        one_each(token_pairs(self.entries@))
    }

    fn new() -> (t: TokenList)
        ensures
            token_pairs(t.entries@) == Seq::<(Seq<u8>, Seq<u8>)>::empty(),
    {
        let entries: Vec<(NodeId, Vec<u8>)> = Vec::new();
        assert(token_pairs(entries@) =~= seq![]);
        TokenList { entries }
    }

    fn put(&mut self, id: NodeId, token: Vec<u8>)
        ensures
            token_pairs(final(self).entries@) == with_token(
                token_pairs(old(self).entries@),
                id.0@,
                token@,
            ),
    {
        proof {
            use_type_invariant(&*self);
        }
        let mut entries: Vec<(NodeId, Vec<u8>)> = Vec::new();
        assert(token_pairs(entries@) =~= seq![]);
        std::mem::swap(&mut entries, &mut self.entries);
        put_token(&mut entries, id, token);
        self.entries = entries;
    }
}

impl Lookup {
    /// Begin a search for at most `max` peers with the given nodes.
    pub fn new(seed: Vec<DhtNode>, max: usize) -> (l: Lookup)
        ensures
            l@ == (Search {
                max: max as nat,
                queue: infos(seed@),
                visited: Set::empty(),
                peers: seq![],
                tokens: seq![],
            }),
    {
        let l = Lookup {
            max,
            queue: seed,
            visited: Vec::new(),
            peers: Vec::new(),
            tokens: TokenList::new(),
        };
        assert(l@.visited =~= Set::empty());
        assert(l@.peers =~= seq![]);
        l
    }

    /// The next node to ask, unless the time is up, enough peers are found, or
    /// everyone has been asked.
    pub fn next(&mut self, expired: bool) -> (r: Option<DhtNode>)
        ensures
            match r {
                Some(n) => {
                    &&& old(self)@.wants_more(expired)
                    &&& !old(self)@.visited.contains(n@.addr)
                    &&& exists|i: int|
                        {
                            &&& 0 <= i < old(self)@.queue.len()
                            &&& n@ == #[trigger] old(self)@.queue[i]
                            &&& forall|j: int|
                                0 <= j < i ==> old(self)@.visited.contains(
                                    #[trigger] old(self)@.queue[j].addr,
                                )
                            &&& final(self)@ == (Search {
                                queue: old(self)@.queue.skip(i + 1),
                                visited: old(self)@.visited.insert(n@.addr),
                                ..old(self)@
                            })
                        }
                },
                None => if old(self)@.wants_more(expired) {
                    &&& forall|j: int|
                        0 <= j < old(self)@.queue.len() ==> old(self)@.visited.contains(
                            #[trigger] old(self)@.queue[j].addr,
                        )
                    &&& final(self)@ == (Search { queue: seq![], ..old(self)@ })
                } else {
                    final(self)@ == old(self)@
                },
            },
    {
        if expired || self.peers.len() >= self.max {
            return None;
        }
        let ghost queue = self@.queue;
        let ghost visited = self@.visited;
        let mut i: usize = 0;
        while i < self.queue.len() && contains_addr(&self.visited, &self.queue[i].addr)
            invariant
                *self == *old(self),
                queue == self@.queue,
                visited == self@.visited,
                i <= self.queue.len(),
                forall|j: int| 0 <= j < i ==> visited.contains(#[trigger] queue[j].addr),
            decreases self.queue.len() - i,
        {
            assert(queue[i as int] == self.queue@[i as int]@);
            i = i + 1;
        }
        if i == self.queue.len() {
            self.queue = Vec::new();
            assert(self@.queue =~= seq![]);
            return None;
        }
        let node = self.queue[i];
        assert(queue[i as int] == node@);
        let mut rest: Vec<DhtNode> = Vec::new();
        let mut k: usize = i + 1;
        while k < self.queue.len()
            invariant
                i + 1 <= k <= self.queue.len(),
                queue == infos(self.queue@),
                infos(rest@) == queue.subrange(i + 1, k as int),
            decreases self.queue.len() - k,
        {
            let ghost before = rest@;
            rest.push(self.queue[k]);
            k = k + 1;
            assert(infos(rest@) =~= infos(before).push(queue[k - 1]));
            assert(infos(rest@) =~= queue.subrange(i + 1, k as int));
        }
        assert(infos(rest@) =~= queue.skip(i + 1));
        self.queue = rest;
        let ghost before = self.visited@;
        self.visited.push(node.addr);
        proof {
            let after = endpoints(self.visited@);
            assert(after =~= endpoints(before).push(node.addr@));
            assert forall|e: Endpoint| after.to_set().contains(e) == visited.insert(
                node@.addr,
            ).contains(e) by {
                if after.contains(e) {
                    let x = choose|x: int| 0 <= x < after.len() && after[x] == e;
                    if x < before.len() {
                        assert(endpoints(before)[x] == e);
                    }
                }
                if endpoints(before).contains(e) {
                    let x = choose|x: int| 0 <= x < before.len() && endpoints(before)[x] == e;
                    assert(after[x] == e);
                }
                assert(after[before.len() as int] == node.addr@);
            }
            assert(after.to_set() =~= visited.insert(node@.addr));
        }
        Some(node)
    }

    /// Take in what a node answered.
    pub fn on_event(&mut self, event: DhtEvent)
        ensures
            final(self)@ == old(self)@.with(event@),
    {
        match event {
            DhtEvent::Peers(p) => {
                let ghost before = self.peers@;
                let mut p = p;
                let ghost more = p@;
                self.peers.append(&mut p);
                assert(endpoints(self.peers@) =~= endpoints(before) + endpoints(more));
            },
            DhtEvent::Nodes(nodes) => {
                let ghost all = infos(nodes@);
                let ghost queue = self@.queue;
                let mut i: usize = 0;
                assert(all.take(0) =~= seq![]);
                assert(queue =~= queue + unvisited(all.take(0), self@.visited));
                while i < nodes.len()
                    invariant
                        i <= nodes.len(),
                        all == infos(nodes@),
                        self@ == (Search {
                            queue: queue + unvisited(all.take(i as int), old(self)@.visited),
                            ..old(self)@
                        }),
                    decreases nodes.len() - i,
                {
                    proof {
                        assert(all.take(i + 1).drop_last() =~= all.take(i as int));
                        assert(all.take(i + 1).last() == nodes@[i as int]@);
                    }
                    if !contains_addr(&self.visited, &nodes[i].addr) {
                        let ghost before = self.queue@;
                        self.queue.push(nodes[i]);
                        assert(infos(self.queue@) =~= infos(before).push(nodes@[i as int]@));
                    }
                    assert(self@.queue =~= queue + unvisited(
                        all.take(i + 1),
                        old(self)@.visited,
                    ));
                    i = i + 1;
                }
                assert(all.take(i as int) =~= all);
            },
            DhtEvent::Token { node_id, token } => {
                self.tokens.put(node_id, token);
            },
        }
    }

    /// Whom to announce ourselves to, among the given nodes.
    pub fn announcements(&self, closest: &Vec<DhtNode>) -> (r: Vec<(PeerAddr, Vec<u8>)>)
        ensures
            announce_pairs(r@) == announce_list(self@.tokens, infos(closest@)),
    {
        let ghost tokens = self@.tokens;
        let mut out: Vec<(PeerAddr, Vec<u8>)> = Vec::new();
        let mut i: usize = 0;
        assert(tokens.take(0) =~= seq![]);
        assert(announce_pairs(out@) =~= seq![]);
        while i < self.tokens.entries.len()
            invariant
                i <= self.tokens.entries.len(),
                tokens == token_pairs(self.tokens.entries@),
                announce_pairs(out@) == announce_list(tokens.take(i as int), infos(closest@)),
            decreases self.tokens.entries.len() - i,
        {
            let entry = &self.tokens.entries[i];
            proof {
                assert(tokens.take(i + 1).drop_last() =~= tokens.take(i as int));
                assert(tokens.take(i + 1).last() == (entry.0.0@, entry.1@));
            }
            if let Some(addr) = find_addr(closest, &entry.0) {
                let ghost before = out@;
                let token = owned(entry.1.as_slice());
                out.push((addr, token));
                assert(announce_pairs(out@) =~= announce_pairs(before).push((addr@, token@)));
            }
            i = i + 1;
        }
        assert(tokens.take(i as int) =~= tokens);
        out
    }

    /// The peers that were found, at most as many as were wanted.
    pub fn into_peers(self) -> (r: Vec<PeerAddr>)
        ensures
            endpoints(r@) == if self@.peers.len() <= self@.max {
                self@.peers
            } else {
                self@.peers.take(self@.max as int)
            },
    {
        let ghost all = self@.peers;
        let Lookup { max, queue: _, visited: _, peers, tokens: _ } = self;
        let mut peers = peers;
        peers.truncate(max);
        assert(endpoints(peers@) =~= if all.len() <= max {
            all
        } else {
            all.take(max as int)
        });
        peers
    }
}

fn put_token(tokens: &mut Vec<(NodeId, Vec<u8>)>, id: NodeId, token: Vec<u8>)
    requires
        one_each(token_pairs(old(tokens)@)),
    ensures
        token_pairs(final(tokens)@) == with_token(token_pairs(old(tokens)@), id.0@, token@),
        one_each(token_pairs(final(tokens)@)),
{
    let ghost before = token_pairs(tokens@);
    let mut i: usize = 0;
    while i < tokens.len()
        invariant
            i <= tokens.len(),
            tokens@ == old(tokens)@,
            before == token_pairs(old(tokens)@),
            one_each(before),
            forall|j: int| 0 <= j < i ==> (#[trigger] before[j]).0 != id.0@,
        decreases tokens.len() - i,
    {
        assert(before[i as int] == (tokens@[i as int].0.0@, tokens@[i as int].1@));
        if same_bytes(tokens[i].0.0.as_slice(), id.0.as_slice()) {
            proof {
                assert(has_token(before, id.0@));
                let c = token_index(before, id.0@);
                if c != i {
                    assert(before[c].0 != before[i as int].0);
                }
            }
            let ghost value = token@;
            tokens[i] = (id, token);
            assert(token_pairs(tokens@) =~= before.update(i as int, (id.0@, value)));
            return ;
        }
        i = i + 1;
    }
    let ghost value = token@;
    tokens.push((id, token));
    assert(token_pairs(tokens@) =~= before.push((id.0@, value)));
}

fn find_addr(nodes: &Vec<DhtNode>, id: &NodeId) -> (r: Option<PeerAddr>)
    ensures
        match addr_of(infos(nodes@), id.0@) {
            Some(a) => r matches Some(x) && x@ == a,
            None => r is None,
        },
{
    let ghost all = infos(nodes@);
    let mut i: usize = 0;
    assert(all.skip(0) =~= all);
    while i < nodes.len()
        invariant
            i <= nodes.len(),
            all == infos(nodes@),
            addr_of(all, id.0@) == addr_of(all.skip(i as int), id.0@),
        decreases nodes.len() - i,
    {
        assert(all.skip(i as int)[0] == nodes@[i as int]@);
        if same_bytes(nodes[i].id.0.as_slice(), id.0.as_slice()) {
            return Some(nodes[i].addr);
        }
        assert(all.skip(i as int).drop_first() =~= all.skip(i + 1));
        i = i + 1;
    }
    None
}

// Laws

proof fn lemma_message_keys()
    ensures
        "t".spec_bytes()[0] == 0x74,
        "y".spec_bytes()[0] == 0x79,
        "q".spec_bytes()[0] == 0x71,
        "a".spec_bytes()[0] == 0x61,
        "r".spec_bytes()[0] == 0x72,
{
    reveal_strlit("t");
    reveal_strlit("y");
    reveal_strlit("q");
    reveal_strlit("a");
    reveal_strlit("r");
    is_ascii_chars_encode_utf8("t"@);
    is_ascii_chars_encode_utf8("y"@);
    is_ascii_chars_encode_utf8("q"@);
    is_ascii_chars_encode_utf8("a"@);
    is_ascii_chars_encode_utf8("r"@);
}

/// Whoever receives the packet of a query reads from it what was asked, under
/// which transaction, by whom, and the arguments.
pub proof fn lemma_query_is_understood(
    method: Seq<u8>,
    tid: Seq<u8>,
    own_id: Seq<u8>,
    args: Map<Seq<u8>, Tree>,
)
    requires
        finite(Tree::Dict(args)),
        encode(query_tree(method, tid, own_id, args)).len() <= isize::MAX,
    ensures
        ({
            let q = query_tree(method, tid, own_id, args);
            let a = args.insert("id".spec_bytes(), Tree::Bytes(own_id));
            &&& value_at(encode(q), 0) matches Ok((t, _)) && t == q
            &&& q.get_bytes("y".spec_bytes()) == Some("q".spec_bytes())
            &&& q.get_bytes("t".spec_bytes()) == Some(tid)
            &&& q.get_bytes("q".spec_bytes()) == Some(method)
            &&& q.get("a".spec_bytes()) == Some(Tree::Dict(a))
        }),
{
    lemma_message_keys();
    let q = query_tree(method, tid, own_id, args);
    let a = args.insert("id".spec_bytes(), Tree::Bytes(own_id));
    assert(finite(Tree::Bytes(own_id)) && finite(Tree::Bytes(tid)) && finite(Tree::Bytes(method))
        && finite(text_tree("q")));
    assert(finite(Tree::Dict(a)));
    assert(finite(q));
    lemma_lengths_fit(q);
    lemma_decode_encode(q, seq![]);
    assert(encode(q) + seq![] =~= encode(q));
}

/// A ping is answered with a response under the transaction id that it came
/// with and our own id, whatever we know.
pub proof fn lemma_ping_is_answered(k: Known, msg: Tree, t: Seq<u8>, from: Endpoint, now: Instant)
    requires
        msg.get_str("y".spec_bytes()) == Some("q"@),
        msg.get_str("q".spec_bytes()) == Some("ping"@),
        msg.get_bytes("t".spec_bytes()) == Some(t),
        encode(pong_tree(t, k.own_id)).len() <= isize::MAX,
    ensures
        k.on_message(msg, from, now) == (k, Reaction::Send(encode(pong_tree(t, k.own_id)))),
        value_at(encode(pong_tree(t, k.own_id)), 0) matches Ok((pong, _)) && pong.get_bytes(
            "t".spec_bytes(),
        ) == Some(t) && pong.get_bytes("y".spec_bytes()) == Some("r".spec_bytes())
            && sender_id(pong.get("r".spec_bytes()).unwrap()) == if k.own_id.len() == 20 {
            Some(k.own_id)
        } else {
            None
        },
{
    lemma_message_keys();
    reveal_strlit("q");
    reveal_strlit("r");
    let pong = pong_tree(t, k.own_id);
    let inner = Tree::Dict(map!["id".spec_bytes() => Tree::Bytes(k.own_id)]);
    assert(finite(Tree::Bytes(k.own_id)) && finite(Tree::Bytes(t)) && finite(text_tree("r")));
    assert(finite(inner));
    assert(finite(pong));
    lemma_lengths_fit(pong);
    lemma_decode_encode(pong, seq![]);
    assert(encode(pong) + seq![] =~= encode(pong));
    assert(inner.get_bytes("id".spec_bytes()) == Some(k.own_id));
}

/// The closest nodes are determined by the table and the target.
pub proof fn lemma_closest_is_unique(
    a: Seq<NodeInfo>,
    b: Seq<NodeInfo>,
    nodes: Seq<NodeInfo>,
    target: Seq<u8>,
    k: nat,
)
    requires
        is_closest(a, nodes, target, k),
        is_closest(b, nodes, target, k),
    ensures
        a == b,
{
    lemma_closest_prefix(a, b, nodes, target, k, a.len() as int);
    assert(a =~= b);
}

proof fn lemma_closest_prefix(
    a: Seq<NodeInfo>,
    b: Seq<NodeInfo>,
    nodes: Seq<NodeInfo>,
    target: Seq<u8>,
    k: nat,
    n: int,
)
    requires
        is_closest(a, nodes, target, k),
        is_closest(b, nodes, target, k),
        0 <= n <= a.len(),
    ensures
        forall|i: int| 0 <= i < n ==> a[i] == b[i],
    decreases n,
{
    if n > 0 {
        lemma_closest_prefix(a, b, nodes, target, k, n - 1);
        let m = n - 1;
        if a[m] != b[m] {
            lemma_nearer(a, b, nodes, target, k, m);
            lemma_nearer(b, a, nodes, target, k, m);
            lemma_precedes_asymmetric(
                distance(a[m].id, target),
                distance(b[m].id, target),
            );
        }
    }
}

/// Where two lists of the closest nodes first differ, each would have to be
/// nearer than the other.
proof fn lemma_nearer(
    a: Seq<NodeInfo>,
    b: Seq<NodeInfo>,
    nodes: Seq<NodeInfo>,
    target: Seq<u8>,
    k: nat,
    m: int,
)
    requires
        is_closest(a, nodes, target, k),
        is_closest(b, nodes, target, k),
        0 <= m < a.len(),
        forall|i: int| 0 <= i < m ==> a[i] == b[i],
        a[m] != b[m],
    ensures
        closer(a[m], b[m], target),
{
    assert(nodes.contains(b[m]));
    if a.contains(b[m]) {
        let x = choose|x: int| 0 <= x < a.len() && a[x] == b[m];
        if x < m {
            assert(b[x] == b[m]);
            assert(closer(b[x], b[m], target));
            lemma_precedes_irreflexive(distance(b[m].id, target));
        } else {
            assert(closer(a[m], a[x], target));
        }
    } else {
        assert(closer(a[m], b[m], target));
    }
}

proof fn lemma_xor_chain(a: u8, b: u8, c: u8)
    by (bit_vector)
    ensures
        (a ^ b) ^ (b ^ c) == a ^ c,
{
}

/// The distances of two ids from a third give their own distance.
pub proof fn lemma_distance_through(a: Seq<u8>, b: Seq<u8>, c: Seq<u8>)
    ensures
        distance(distance(a, b), distance(b, c)) == distance(a, c),
{
    assert forall|i: int| 0 <= i < 20 implies #[trigger] distance(
        distance(a, b),
        distance(b, c),
    )[i] == distance(a, c)[i] by {
        lemma_xor_chain(a[i], b[i], c[i]);
    }
    assert(distance(distance(a, b), distance(b, c)) =~= distance(a, c));
}

/// The search after several things were learnt, one after the other.
pub open spec fn after(s: Search, events: Seq<News>) -> Search
    decreases events.len(),
{
    if events.len() == 0 {
        s
    } else {
        after(s, events.drop_last()).with(events.last())
    }
}

/// The peers that events tell of, in order.
pub open spec fn told_peers(events: Seq<News>) -> Seq<Endpoint>
    decreases events.len(),
{
    if events.len() == 0 {
        seq![]
    } else {
        told_peers(events.drop_last()) + match events.last() {
            News::Peers(p) => p,
            _ => seq![],
        }
    }
}

/// The nodes that events tell of, in order.
pub open spec fn told_nodes(events: Seq<News>) -> Seq<NodeInfo>
    decreases events.len(),
{
    if events.len() == 0 {
        seq![]
    } else {
        told_nodes(events.drop_last()) + match events.last() {
            News::Nodes(n) => n,
            _ => seq![],
        }
    }
}

/// No peer that was learnt is lost: what an event tells comes behind the peers
/// that are known, and nothing else changes them. Only nodes change the queue,
/// which keeps what it held, and no event changes whom was asked or how many
/// peers are wanted.
pub proof fn lemma_event_keeps(s: Search, e: News)
    ensures
        s.with(e).peers.take(s.peers.len() as int) == s.peers,
        s.with(e).peers.len() >= s.peers.len(),
        s.with(e).queue.take(s.queue.len() as int) == s.queue,
        s.with(e).queue.len() >= s.queue.len(),
        s.with(e).visited == s.visited,
        s.with(e).max == s.max,
        e matches News::Peers(p) ==> s.with(e).peers.skip(s.peers.len() as int) == p,
        !(e is Peers) ==> s.with(e).peers == s.peers,
        !(e is Nodes) ==> s.with(e).queue == s.queue,
        !(e is Token) ==> s.with(e).tokens == s.tokens,
{
    assert(s.with(e).peers.take(s.peers.len() as int) =~= s.peers);
    assert(s.with(e).queue.take(s.queue.len() as int) =~= s.queue);
    if let News::Peers(p) = e {
        assert(s.with(e).peers.skip(s.peers.len() as int) =~= p);
    }
}

/// Over any sequence of events, the peers are those that were known and then
/// those of all the peer lists, in order. The nodes to ask are those that were
/// to be asked and then those that were named, but for the ones that have been
/// asked.
pub proof fn lemma_nothing_learnt_is_lost(s: Search, events: Seq<News>)
    ensures
        after(s, events).peers == s.peers + told_peers(events),
        after(s, events).queue == s.queue + unvisited(told_nodes(events), s.visited),
        after(s, events).visited == s.visited,
        after(s, events).max == s.max,
    decreases events.len(),
{
    if events.len() == 0 {
        assert(s.peers + told_peers(events) =~= s.peers);
        assert(s.queue + unvisited(told_nodes(events), s.visited) =~= s.queue);
    } else {
        let head = events.drop_last();
        lemma_nothing_learnt_is_lost(s, head);
        let more: Seq<NodeInfo> = match events.last() {
            News::Nodes(n) => n,
            _ => seq![],
        };
        lemma_unvisited_parts(told_nodes(head), more, s.visited);
        assert(after(s, events).peers =~= s.peers + told_peers(events));
        assert(after(s, events).queue =~= s.queue + unvisited(told_nodes(events), s.visited));
    }
}

/// Of the nodes that are named, those that have not been asked are kept, each
/// as often as it is named and in order.
pub proof fn lemma_unvisited_parts(a: Seq<NodeInfo>, b: Seq<NodeInfo>, visited: Set<Endpoint>)
    ensures
        unvisited(a + b, visited) == unvisited(a, visited) + unvisited(b, visited),
    decreases b.len(),
{
    if b.len() == 0 {
        assert(a + b =~= a);
        assert(unvisited(a, visited) + unvisited(b, visited) =~= unvisited(a, visited));
    } else {
        lemma_unvisited_parts(a, b.drop_last(), visited);
        assert((a + b).drop_last() =~= a + b.drop_last());
        assert((a + b).last() == b.last());
        assert(unvisited(a + b, visited) =~= unvisited(a, visited) + unvisited(b, visited));
    }
}

/// A node is asked later if and only if it was named and has not been asked.
pub proof fn lemma_unvisited(nodes: Seq<NodeInfo>, visited: Set<Endpoint>, x: NodeInfo)
    ensures
        unvisited(nodes, visited).contains(x) <==> nodes.contains(x) && !visited.contains(x.addr),
        unvisited(nodes, Set::empty()) == nodes,
        unvisited(nodes, visited).len() <= nodes.len(),
        (forall|i: int| 0 <= i < nodes.len() ==> !visited.contains((#[trigger] nodes[i]).addr))
            ==> unvisited(nodes, visited) == nodes,
    decreases nodes.len(),
{
    if nodes.len() > 0 {
        let head = nodes.drop_last();
        let last = nodes.last();
        lemma_unvisited(head, visited, x);
        assert(nodes =~= head.push(last));
        let kept = unvisited(head, visited);
        assert(nodes.contains(x) <==> head.contains(x) || x == last) by {
            assert(nodes[nodes.len() - 1] == last);
            if head.contains(x) {
                let i = choose|i: int| 0 <= i < head.len() && head[i] == x;
                assert(nodes[i] == x);
            }
            if nodes.contains(x) {
                let i = choose|i: int| 0 <= i < nodes.len() && nodes[i] == x;
                if i < head.len() {
                    assert(head[i] == x);
                }
            }
        }
        assert(kept.push(last).contains(x) <==> kept.contains(x) || x == last) by {
            assert(kept.push(last)[kept.len() as int] == last);
            if kept.contains(x) {
                let i = choose|i: int| 0 <= i < kept.len() && kept[i] == x;
                assert(kept.push(last)[i] == x);
            }
            if kept.push(last).contains(x) {
                let i = choose|i: int| 0 <= i < kept.push(last).len() && kept.push(last)[i] == x;
                if i < kept.len() {
                    assert(kept[i] == x);
                }
            }
        }
        if forall|i: int| 0 <= i < nodes.len() ==> !visited.contains((#[trigger] nodes[i]).addr) {
            assert forall|i: int| 0 <= i < head.len() implies !visited.contains(
                (#[trigger] head[i]).addr,
            ) by {
                assert(head[i] == nodes[i]);
            }
            assert(nodes[nodes.len() - 1] == last);
        }
    }
}

/// The token that a node gave last stands; those of the others stay.
pub proof fn lemma_token_stands(s: Search, id: Seq<u8>, token: Seq<u8>, other: (Seq<u8>, Seq<u8>))
    requires
        one_each(s.tokens),
    ensures
        one_each(s.with(News::Token(id, token)).tokens),
        s.with(News::Token(id, token)).tokens.contains((id, token)),
        other.0 == id && other.1 != token ==> !s.with(News::Token(id, token)).tokens.contains(
            other,
        ),
        other.0 != id ==> (s.with(News::Token(id, token)).tokens.contains(other)
            <==> s.tokens.contains(other)),
{
    let now = s.with(News::Token(id, token)).tokens;
    let at: int = if has_token(s.tokens, id) {
        token_index(s.tokens, id)
    } else {
        s.tokens.len() as int
    };
    assert(now[at] == (id, token));
    assert forall|i: int| 0 <= i < now.len() && i != at implies #[trigger] now[i] == s.tokens[i]
        && now[i].0 != id by {}
    if s.tokens.contains(other) && other.0 != id {
        let i = choose|i: int| 0 <= i < s.tokens.len() && s.tokens[i] == other;
        assert(now[i] == other);
    }
    if now.contains(other) {
        let i = choose|i: int| 0 <= i < now.len() && now[i] == other;
        if i != at {
            assert(s.tokens[i] == other);
        }
    }
}

/// A node that is known is refreshed where it stands, a new one is remembered
/// while there is room for it, and every other node stays as it is.
pub proof fn lemma_added(nodes: Seq<NodeInfo>, node: NodeInfo)
    requires
        unique(nodes),
    ensures
        unique(added(nodes, node)),
        forall|i: int|
            0 <= i < nodes.len() && (#[trigger] nodes[i]).id != node.id ==> added(nodes, node)[i]
                == nodes[i],
        forall|i: int|
            0 <= i < nodes.len() && (#[trigger] nodes[i]).id == node.id ==> added(nodes, node)[i]
                == node && added(nodes, node).len() == nodes.len(),
        !has_id(nodes, node.id) && nodes.len() < 160 ==> added(nodes, node) == nodes.push(node),
        !has_id(nodes, node.id) && nodes.len() >= 160 ==> added(nodes, node) == nodes,
{
    if has_id(nodes, node.id) {
        let at = index_of_id(nodes, node.id);
        assert(nodes[at].id == node.id);
    }
}

/// Nodes in their compact form: id, address and port, one after the other.
pub open spec fn node_bytes(nodes: Seq<NodeInfo>) -> Seq<u8>
    decreases nodes.len(),
{
    if nodes.len() == 0 {
        seq![]
    } else {
        node_bytes(nodes.drop_last()) + nodes.last().id + compact_bytes(nodes.last().addr)
    }
}

/// The compact form of nodes is read back as those nodes, seen now; bytes that
/// are too few for another one are left out.
pub proof fn lemma_nodes_round_trip(nodes: Seq<NodeInfo>, rest: Seq<u8>, now: Instant)
    requires
        forall|i: int|
            0 <= i < nodes.len() ==> (#[trigger] nodes[i]).id.len() == 20 && nodes[i].addr.ip.len()
                == 4 && nodes[i].last_seen == now,
        rest.len() < 26,
    ensures
        node_bytes(nodes).len() == 26 * nodes.len(),
        compact_nodes(node_bytes(nodes) + rest, now) == nodes,
{
    lemma_node_parts(nodes, now);
    let raw = node_bytes(nodes) + rest;
    assert(raw.len() / 26 == nodes.len());
    assert forall|i: int| 0 <= i < nodes.len() implies #[trigger] compact_nodes(raw, now)[i]
        == nodes[i] by {
        assert(raw.subrange(26 * i, 26 * i + 26) =~= node_bytes(nodes).subrange(
            26 * i,
            26 * i + 26,
        ));
        assert(compact_node(node_bytes(nodes).subrange(26 * i, 26 * i + 26), now) == nodes[i]);
    }
    assert(compact_nodes(raw, now) =~= nodes);
}

proof fn lemma_node_parts(nodes: Seq<NodeInfo>, now: Instant)
    requires
        forall|i: int|
            0 <= i < nodes.len() ==> (#[trigger] nodes[i]).id.len() == 20 && nodes[i].addr.ip.len()
                == 4 && nodes[i].last_seen == now,
    ensures
        node_bytes(nodes).len() == 26 * nodes.len(),
        forall|i: int|
            0 <= i < nodes.len() ==> compact_node(
                #[trigger] node_bytes(nodes).subrange(26 * i, 26 * i + 26),
                now,
            ) == nodes[i],
    decreases nodes.len(),
{
    if nodes.len() > 0 {
        let head = nodes.drop_last();
        let last = nodes.last();
        let n = head.len() as int;
        assert(nodes[n] == last);
        assert forall|i: int| 0 <= i < head.len() implies (#[trigger] head[i]).id.len() == 20
            && head[i].addr.ip.len() == 4 && head[i].last_seen == now by {
            assert(nodes[i] == head[i]);
        }
        lemma_node_parts(head, now);
        lemma_compact_entry(last.addr, 4);
        assert forall|i: int| 0 <= i < nodes.len() implies compact_node(
            #[trigger] node_bytes(nodes).subrange(26 * i, 26 * i + 26),
            now,
        ) == nodes[i] by {
            let part = node_bytes(nodes).subrange(26 * i, 26 * i + 26);
            if i < n {
                assert(part =~= node_bytes(head).subrange(26 * i, 26 * i + 26));
            } else {
                assert(part.take(20) =~= last.id);
                assert(part.skip(20) =~= compact_bytes(last.addr));
            }
        }
    }
}

/// Peers that a response lists in their compact form are read back, in order.
pub proof fn lemma_values_round_trip(peers: Seq<Endpoint>)
    requires
        forall|i: int| 0 <= i < peers.len() ==> (#[trigger] peers[i]).ip.len() == 4,
    ensures
        peers_of(Tree::List(peers.map_values(|p: Endpoint| Tree::Bytes(compact_bytes(p)))))
            == peers,
    decreases peers.len(),
{
    let list = peers.map_values(|p: Endpoint| Tree::Bytes(compact_bytes(p)));
    if peers.len() > 0 {
        let head = peers.drop_last();
        assert(peers[peers.len() - 1] == peers.last());
        assert forall|i: int| 0 <= i < head.len() implies (#[trigger] head[i]).ip.len() == 4 by {
            assert(peers[i] == head[i]);
        }
        lemma_values_round_trip(head);
        lemma_compact_entry(peers.last(), 4);
        assert(list.drop_last() =~= head.map_values(
            |p: Endpoint| Tree::Bytes(compact_bytes(p)),
        ));
        assert(listed_peers(list) =~= peers);
    } else {
        assert(peers =~= seq![]);
    }
}

/// What is no compact peer counts for nothing, wherever it stands.
pub proof fn lemma_odd_value(before: Seq<Tree>, odd: Tree, after: Seq<Tree>)
    requires
        odd matches Tree::Bytes(b) ==> b.len() != 6,
    ensures
        listed_peers(before + seq![odd] + after) == listed_peers(before + after),
    decreases after.len(),
{
    let all = before + seq![odd] + after;
    if after.len() == 0 {
        assert(all.drop_last() =~= before);
        assert(all.last() == odd);
        assert(before + after =~= before);
    } else {
        lemma_odd_value(before, odd, after.drop_last());
        assert(all.drop_last() =~= before + seq![odd] + after.drop_last());
        assert((before + after).drop_last() =~= before + after.drop_last());
        assert(all.last() == after.last() && (before + after).last() == after.last());
    }
}

/// Whether a message is a response under a transaction id.
pub open spec fn is_response(msg: Tree, tid: u16, r: Tree) -> bool {
    &&& msg.get_str("y".spec_bytes()) == Some("r"@)
    &&& msg.get("r".spec_bytes()) == Some(r)
    &&& msg.get("t".spec_bytes()) matches Some(Tree::Bytes(t)) && t.len() >= 2 && t.take(2)
        == be16(tid)
}

/// The answer to an open query reaches the search that asked: its peers come
/// behind the ones that are known, its nodes are to be asked unless they have
/// been, and its token stands for the sender. The query is then closed, and
/// every other one stays as it was.
pub proof fn lemma_answer_is_delivered(
    k: Known,
    msg: Tree,
    tid: u16,
    r: Tree,
    from: Endpoint,
    now: Instant,
    s: Search,
)
    requires
        is_response(msg, tid, r),
        k.pending.contains(tid),
    ensures
        ({
            let (next, reaction) = k.on_message(msg, from, now);
            &&& reaction matches Reaction::Deliver(to, events) && {
                &&& to == tid
                &&& r.get("values".spec_bytes()) matches Some(v) ==> after(s, events).peers
                    == s.peers + peers_of(v)
                &&& r.get("values".spec_bytes()) is None ==> after(s, events).peers == s.peers
                &&& r.get("nodes".spec_bytes()) matches Some(Tree::Bytes(raw)) ==> after(
                    s,
                    events,
                ).queue == s.queue + unvisited(compact_nodes(raw, now), s.visited)
                &&& r.get("nodes".spec_bytes()) is None ==> after(s, events).queue == s.queue
                &&& r.get("token".spec_bytes()) is None ==> after(s, events).tokens == s.tokens
            }
            &&& next.own_id == k.own_id
            &&& !next.pending.contains(tid)
            &&& forall|other: u16|
                other != tid ==> #[trigger] next.pending.contains(other) == k.pending.contains(
                    other,
                )
            &&& next.on_message(msg, from, now).1 == Reaction::Nothing
        }),
{
    reveal_strlit("r");
    reveal_strlit("q");
    lemma_tid(msg, tid);
    let events = news_of(r, now);
    lemma_told(r, now);
    lemma_nothing_learnt_is_lost(s, events);
    if r.get("token".spec_bytes()) is None {
        lemma_no_token(s, events);
    }
}

proof fn lemma_tid(msg: Tree, tid: u16)
    requires
        msg.get("t".spec_bytes()) matches Some(Tree::Bytes(t)) && t.len() >= 2 && t.take(2)
            == be16(tid),
    ensures
        from_be16(bytes_or_none(msg, "t".spec_bytes()), 0) == tid,
        bytes_or_none(msg, "t".spec_bytes()).len() >= 2,
{
    let t = bytes_or_none(msg, "t".spec_bytes());
    assert(t.subrange(0, 2) =~= t.take(2));
    lemma_be_round_trip(t, 0);
}

proof fn lemma_told(r: Tree, now: Instant)
    ensures
        told_peers(news_of(r, now)) == match r.get("values".spec_bytes()) {
            Some(v) => peers_of(v),
            None => seq![],
        },
        told_nodes(news_of(r, now)) == match r.get_bytes("nodes".spec_bytes()) {
            Some(raw) => compact_nodes(raw, now),
            None => seq![],
        },
        r.get("token".spec_bytes()) is None ==> forall|i: int|
            0 <= i < news_of(r, now).len() ==> !((#[trigger] news_of(r, now)[i]) is Token),
{
    reveal_with_fuel(told_peers, 4);
    reveal_with_fuel(told_nodes, 4);
    let events = news_of(r, now);
    let p: Seq<Endpoint> = match r.get("values".spec_bytes()) {
        Some(v) => peers_of(v),
        None => seq![],
    };
    let n: Seq<NodeInfo> = match r.get_bytes("nodes".spec_bytes()) {
        Some(raw) => compact_nodes(raw, now),
        None => seq![],
    };
    assert(events.len() <= 3);
    assert(told_peers(events) =~= p);
    assert(told_nodes(events) =~= n);
}

proof fn lemma_no_token(s: Search, events: Seq<News>)
    requires
        forall|i: int| 0 <= i < events.len() ==> !((#[trigger] events[i]) is Token),
    ensures
        after(s, events).tokens == s.tokens,
    decreases events.len(),
{
    if events.len() > 0 {
        assert(!(events[events.len() - 1] is Token));
        assert forall|i: int| 0 <= i < events.drop_last().len() implies !(
        (#[trigger] events.drop_last()[i]) is Token) by {
            assert(!(events[i] is Token));
        }
        lemma_no_token(s, events.drop_last());
    }
}

/// The token that comes with an answer stands for the node that sent it.
pub proof fn lemma_token_is_delivered(
    k: Known,
    msg: Tree,
    tid: u16,
    r: Tree,
    from: Endpoint,
    now: Instant,
    s: Search,
    id: Seq<u8>,
    token: Seq<u8>,
)
    requires
        is_response(msg, tid, r),
        k.pending.contains(tid),
        r.get("id".spec_bytes()) == Some(Tree::Bytes(id)),
        id.len() == 20,
        r.get("token".spec_bytes()) == Some(Tree::Bytes(token)),
        one_each(s.tokens),
    ensures
        k.on_message(msg, from, now).1 matches Reaction::Deliver(_, events) && after(
            s,
            events,
        ).tokens == s.with(News::Token(id, token)).tokens && after(s, events).tokens.contains(
            (id, token),
        ),
{
    reveal_strlit("r");
    reveal_strlit("q");
    lemma_tid(msg, tid);
    let events = news_of(r, now);
    assert(events.last() == News::Token(id, token));
    let head = events.drop_last();
    assert forall|i: int| 0 <= i < head.len() implies !((#[trigger] head[i]) is Token) by {
        assert(head[i] == events[i]);
    }
    lemma_no_token(s, head);
    lemma_token_stands(s, id, token, (id, token));
}

/// Whoever answers is remembered, asked or not, while there is room; an answer
/// that nobody asked for tells nothing else and closes nothing.
pub proof fn lemma_sender_is_remembered(
    k: Known,
    msg: Tree,
    tid: u16,
    r: Tree,
    id: Seq<u8>,
    from: Endpoint,
    now: Instant,
)
    requires
        is_response(msg, tid, r),
        unique(k.nodes),
    ensures
        ({
            let (next, reaction) = k.on_message(msg, from, now);
            &&& !k.pending.contains(tid) ==> reaction == Reaction::Nothing && next.pending
                == k.pending && next.own_id == k.own_id
            &&& r.get("id".spec_bytes()) == Some(Tree::Bytes(id)) && id.len() == 20 && (has_id(
                k.nodes,
                id,
            ) || k.nodes.len() < 160) && (!k.pending.contains(tid) || r.get(
                "nodes".spec_bytes(),
            ) is None) ==> next.nodes.contains(NodeInfo { id, addr: from, last_seen: now })
            &&& !k.pending.contains(tid) && r.get("id".spec_bytes()) is None ==> next == k
        }),
{
    reveal_strlit("r");
    reveal_strlit("q");
    lemma_tid(msg, tid);
    if let Some(id) = sender_id(r) {
        let node = NodeInfo { id, addr: from, last_seen: now };
        lemma_added(k.nodes, node);
        if has_id(k.nodes, id) {
            let i = index_of_id(k.nodes, id);
            assert(k.nodes[i].id == id);
            assert(added(k.nodes, node)[i] == node);
        } else if k.nodes.len() < 160 {
            assert(added(k.nodes, node)[k.nodes.len() as int] == node);
        }
    }
}

/// What is neither a response nor a ping changes nothing and is not answered.
pub proof fn lemma_others_are_ignored(k: Known, msg: Tree, from: Endpoint, now: Instant)
    requires
        msg.get_str("y".spec_bytes()) != Some("r"@),
        msg.get_str("y".spec_bytes()) != Some("q"@) || msg.get_str("q".spec_bytes()) != Some(
            "ping"@,
        ),
    ensures
        k.on_message(msg, from, now) == (k, Reaction::Nothing),
{
}

/// A node's address is found by its id, and only then.
pub proof fn lemma_addr_of(nodes: Seq<NodeInfo>, id: Seq<u8>)
    ensures
        unique(nodes) ==> forall|i: int|
            0 <= i < nodes.len() && (#[trigger] nodes[i]).id == id ==> addr_of(nodes, id) == Some(
                nodes[i].addr,
            ),
        addr_of(nodes, id) is Some <==> has_id(nodes, id),
    decreases nodes.len(),
{
    if nodes.len() > 0 {
        let rest = nodes.drop_first();
        lemma_addr_of(rest, id);
        if nodes[0].id != id {
            assert(forall|i: int| 0 <= i < rest.len() ==> rest[i] == nodes[i + 1]);
            if has_id(nodes, id) {
                let i = index_of_id(nodes, id);
                assert(rest[i - 1].id == id);
            }
            if has_id(rest, id) {
                let i = index_of_id(rest, id);
                assert(nodes[i + 1].id == id);
            }
            if unique(nodes) {
                assert forall|i: int| 0 <= i < nodes.len() && (#[trigger] nodes[i]).id
                    == id implies addr_of(nodes, id) == Some(nodes[i].addr) by {
                    assert(rest[i - 1].id == id);
                }
            }
        } else if unique(nodes) {
            assert forall|i: int| 0 <= i < nodes.len() && (#[trigger] nodes[i]).id
                == id implies addr_of(nodes, id) == Some(nodes[i].addr) by {
                if i > 0 {
                    assert(nodes[0].id != nodes[i].id);
                }
            }
        }
    }
}

/// We announce ourselves to exactly the nodes that gave a token and are among
/// the given ones, each with its own token.
pub proof fn lemma_announced(
    tokens: Seq<(Seq<u8>, Seq<u8>)>,
    nodes: Seq<NodeInfo>,
    to: Endpoint,
    token: Seq<u8>,
)
    requires
        unique(nodes),
    ensures
        announce_list(tokens, nodes).contains((to, token)) <==> exists|i: int, j: int|
            0 <= i < tokens.len() && 0 <= j < nodes.len() && (#[trigger] tokens[i]) == (
                (#[trigger] nodes[j]).id,
                token,
            ) && nodes[j].addr == to,
        announce_list(tokens, nodes).len() <= tokens.len(),
    decreases tokens.len(),
{
    if tokens.len() > 0 {
        let rest = tokens.drop_last();
        let last = tokens.last();
        let n = rest.len() as int;
        lemma_announced(rest, nodes, to, token);
        lemma_addr_of(nodes, last.0);
        let head = announce_list(rest, nodes);
        let all = announce_list(tokens, nodes);
        assert(tokens[n] == last);
        if head.contains((to, token)) {
            let i = choose|i: int| 0 <= i < head.len() && head[i] == (to, token);
            assert(all[i] == (to, token));
            let (x, y) = choose|x: int, y: int|
                0 <= x < rest.len() && 0 <= y < nodes.len() && (#[trigger] rest[x]) == (
                    (#[trigger] nodes[y]).id,
                    token,
                ) && nodes[y].addr == to;
            assert(tokens[x] == (nodes[y].id, token));
        }
        if all.contains((to, token)) && !head.contains((to, token)) {
            let i = choose|i: int| 0 <= i < all.len() && all[i] == (to, token);
            if i < head.len() {
                assert(head[i] == (to, token));
            }
            assert(addr_of(nodes, last.0) == Some(to) && last.1 == token);
            let y = index_of_id(nodes, last.0);
            assert(nodes[y].id == last.0);
            assert(tokens[n] == (nodes[y].id, token));
        }
        if exists|x: int, y: int|
            0 <= x < tokens.len() && 0 <= y < nodes.len() && (#[trigger] tokens[x]) == (
                (#[trigger] nodes[y]).id,
                token,
            ) && nodes[y].addr == to {
            let (x, y) = choose|x: int, y: int|
                0 <= x < tokens.len() && 0 <= y < nodes.len() && (#[trigger] tokens[x]) == (
                    (#[trigger] nodes[y]).id,
                    token,
                ) && nodes[y].addr == to;
            if x < n {
                assert(rest[x] == (nodes[y].id, token));
            } else {
                assert(all[head.len() as int] == (to, token));
            }
        }
    }
}

proof fn lemma_argument_keys()
    ensures
        "id".spec_bytes().len() == 2,
        "target".spec_bytes().len() == 6,
        "info_hash".spec_bytes().len() == 9,
        "port".spec_bytes().len() == 4,
        "token".spec_bytes().len() == 5,
        "implied_port".spec_bytes().len() == 12,
{
    reveal_strlit("id");
    reveal_strlit("target");
    reveal_strlit("info_hash");
    reveal_strlit("port");
    reveal_strlit("token");
    reveal_strlit("implied_port");
    is_ascii_chars_encode_utf8("id"@);
    is_ascii_chars_encode_utf8("target"@);
    is_ascii_chars_encode_utf8("info_hash"@);
    is_ascii_chars_encode_utf8("port"@);
    is_ascii_chars_encode_utf8("token"@);
    is_ascii_chars_encode_utf8("implied_port"@);
}

/// Every query names its method and tells who asks for what; an announcement
/// has the token that was given, and the port is left to the receiver.
pub proof fn lemma_queries(tid: Seq<u8>, own_id: Seq<u8>, target: Seq<u8>, token: Seq<u8>)
    ensures
        ({
            let find = find_node_tree(tid, own_id, target);
            let get = get_peers_tree(tid, own_id, target);
            let announce = announce_peer_tree(tid, own_id, target, token);
            &&& find.get("q".spec_bytes()) == Some(text_tree("find_node"))
            &&& find.get("a".spec_bytes()) matches Some(a) && {
                &&& a.get("id".spec_bytes()) == Some(Tree::Bytes(own_id))
                &&& a.get("target".spec_bytes()) == Some(Tree::Bytes(target))
            }
            &&& get.get("q".spec_bytes()) == Some(text_tree("get_peers"))
            &&& get.get("a".spec_bytes()) matches Some(a) && {
                &&& a.get("id".spec_bytes()) == Some(Tree::Bytes(own_id))
                &&& a.get("info_hash".spec_bytes()) == Some(Tree::Bytes(target))
            }
            &&& announce.get("q".spec_bytes()) == Some(text_tree("announce_peer"))
            &&& announce.get("a".spec_bytes()) matches Some(a) && {
                &&& a.get("id".spec_bytes()) == Some(Tree::Bytes(own_id))
                &&& a.get("info_hash".spec_bytes()) == Some(Tree::Bytes(target))
                &&& a.get("token".spec_bytes()) == Some(Tree::Bytes(token))
                &&& a.get("implied_port".spec_bytes()) == Some(Tree::Int(1))
                &&& a.get("port".spec_bytes()) == Some(Tree::Int(0))
            }
        }),
{
    lemma_message_keys();
    lemma_argument_keys();
}

/// Nodes are added one after the other.
pub proof fn lemma_added_parts(nodes: Seq<NodeInfo>, a: Seq<NodeInfo>, b: Seq<NodeInfo>)
    ensures
        added_all(nodes, a + b) == added_all(added_all(nodes, a), b),
        a.len() == 0 ==> added_all(nodes, a) == nodes,
        a.len() == 1 ==> added_all(nodes, a) == added(nodes, a[0]),
    decreases b.len(),
{
    if a.len() == 1 {
        assert(added_all(nodes, a.drop_last()) == nodes);
    }
    if b.len() == 0 {
        assert(a + b =~= a);
    } else {
        lemma_added_parts(nodes, a, b.drop_last());
        assert((a + b).drop_last() =~= a + b.drop_last());
        assert((a + b).last() == b.last());
    }
}

/// While there is room, every node that is added is known afterwards, and every
/// one that was known stays so.
pub proof fn lemma_added_are_known(nodes: Seq<NodeInfo>, new: Seq<NodeInfo>, id: Seq<u8>)
    requires
        unique(nodes),
        nodes.len() + new.len() <= 160,
    ensures
        unique(added_all(nodes, new)),
        added_all(nodes, new).len() <= nodes.len() + new.len(),
        has_id(added_all(nodes, new), id) <==> has_id(nodes, id) || has_id(new, id),
    decreases new.len(),
{
    if new.len() > 0 {
        let head = new.drop_last();
        let node = new.last();
        lemma_added_are_known(nodes, head, id);
        let before = added_all(nodes, head);
        let after = added(before, node);
        lemma_added(before, node);
        lemma_id_added(before, node, id);
        assert(new =~= head.push(node));
        if has_id(head, id) {
            let i = index_of_id(head, id);
            assert(new[i].id == id);
        }
        if has_id(new, id) && node.id != id {
            let i = index_of_id(new, id);
            assert(head[i].id == id);
        }
        if node.id == id {
            assert(new[new.len() - 1].id == id);
        }
    }
}

proof fn lemma_id_added(nodes: Seq<NodeInfo>, node: NodeInfo, id: Seq<u8>)
    requires
        unique(nodes),
        nodes.len() < 160,
    ensures
        has_id(added(nodes, node), id) <==> has_id(nodes, id) || node.id == id,
        added(nodes, node).len() <= nodes.len() + 1,
{
    let after = added(nodes, node);
    lemma_added(nodes, node);
    if has_id(nodes, id) {
        let i = index_of_id(nodes, id);
        assert(after[i].id == id);
    }
    if node.id == id {
        if has_id(nodes, id) {
        } else {
            assert(after[nodes.len() as int].id == id);
        }
    }
    if has_id(after, id) && node.id != id {
        let i = index_of_id(after, id);
        if i < nodes.len() {
            assert(nodes[i].id == id);
        }
    }
}

/// The nodes that an answer names are known afterwards, and so is its sender,
/// while there is room for them.
pub proof fn lemma_named_nodes_are_known(
    k: Known,
    msg: Tree,
    tid: u16,
    r: Tree,
    raw: Seq<u8>,
    from: Endpoint,
    now: Instant,
    id: Seq<u8>,
)
    requires
        is_response(msg, tid, r),
        k.pending.contains(tid),
        r.get("nodes".spec_bytes()) == Some(Tree::Bytes(raw)),
        unique(k.nodes),
        k.nodes.len() + 1 + raw.len() / 26 <= 160,
    ensures
        has_id(k.on_message(msg, from, now).0.nodes, id) <==> has_id(k.nodes, id) || has_id(
            compact_nodes(raw, now),
            id,
        ) || (id.len() == 20 && r.get("id".spec_bytes()) == Some(Tree::Bytes(id))),
{
    reveal_strlit("r");
    reveal_strlit("q");
    lemma_tid(msg, tid);
    let seen = k.seen(r, from, now);
    if let Some(sender) = sender_id(r) {
        let node = NodeInfo { id: sender, addr: from, last_seen: now };
        lemma_id_added(k.nodes, node, id);
        lemma_added(k.nodes, node);
    }
    lemma_added_are_known(seen.nodes, compact_nodes(raw, now), id);
}

/// The node that shares more leading bytes with the target is the closer one.
pub proof fn lemma_closer(a: NodeInfo, b: NodeInfo, target: Seq<u8>, i: int)
    requires
        a.id.len() == 20,
        b.id.len() == 20,
        target.len() == 20,
        0 <= i < 20,
        forall|j: int| 0 <= j <= i ==> a.id[j] == target[j],
        forall|j: int| 0 <= j < i ==> b.id[j] == target[j],
        b.id[i] != target[i],
    ensures
        closer(a, b, target),
        !closer(b, a, target),
{
    let x = distance(a.id, target);
    let y = distance(b.id, target);
    assert forall|j: int| 0 <= j < i implies x[j] == y[j] by {
        assert(a.id[j] == target[j] && b.id[j] == target[j]);
        lemma_xor(a.id[j], target[j], 0);
    }
    assert(a.id[i] == target[i]);
    lemma_xor(a.id[i], target[i], 0);
    lemma_xor(b.id[i], target[i], 0);
    assert(x[i] == 0 && y[i] != 0);
    assert(differs_at(x, y, i));
    lemma_precedes_asymmetric(x, y);
}

/// A search goes on until the time is up or enough peers are found.
pub proof fn lemma_search_goes_on(s: Search)
    ensures
        !s.wants_more(true),
        s.peers.len() < s.max <==> s.wants_more(false),
{
}

} // verus!

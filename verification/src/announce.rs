//! A round of announces to the trackers of a torrent.
//!
//! The trackers come in tiers. In each tier they are tried in order, up to the
//! first that responds; trackers of an unsupported scheme are skipped. What the
//! trackers of all tiers found makes one list of peers without duplicates. When
//! there are none at the start of a download, the DHT is asked.

use vstd::prelude::*;

use crate::metainfo::Metainfo;
use crate::octets::{
    differs_at, lemma_precedes_asymmetric, lemma_precedes_irreflexive, lemma_precedes_total,
    lemma_precedes_transitive, order_bytes, precedes, Order,
};
use crate::text::texts;
use crate::tracker::{scheme, scheme_of, AnnounceRequest, Event, Scheme};
use crate::types::{endpoints, Endpoint, IpAddr, PeerAddr, PeerId};

verus! {

/// How many peers to ask a tracker for.
pub const NUM_WANT: i32 = 200;

/// What to tell a tracker about a torrent.
pub fn announce_request<'a>(
    meta: &Metainfo,
    url: &'a str,
    peer_id: PeerId,
    port: u16,
    event: Event,
    downloaded: u64,
    uploaded: u64,
) -> (req: AnnounceRequest<'a>)
    ensures
        req.tracker_url@ == url@,
        req.info_hash.0@ == meta@.info_hash,
        req.peer_id == peer_id,
        req.port == port,
        req.uploaded == uploaded,
        req.downloaded == downloaded,
        req.left == if downloaded <= meta@.total_length {
            meta@.total_length - downloaded
        } else {
            0
        },
        req.event == Some(event),
        req.num_want == NUM_WANT,
{
    AnnounceRequest {
        tracker_url: url,
        info_hash: meta.info_hash,
        peer_id,
        port,
        uploaded,
        downloaded,
        left: meta.total_length.saturating_sub(downloaded),
        event: Some(event),
        num_want: NUM_WANT,
    }
}

// Lists of peers

/// The order of addresses: those of IPv4 first, each by its octets, then its port.
pub open spec fn before(a: Endpoint, b: Endpoint) -> bool {
    ||| a.ip.len() < b.ip.len()
    ||| a.ip.len() == b.ip.len() && precedes(a.ip, b.ip)
    ||| a.ip == b.ip && a.port < b.port
}

/// Whether a list is sorted and has no duplicates.
pub open spec fn ascending(s: Seq<Endpoint>) -> bool {
    forall|i: int, j: int| 0 <= i < j < s.len() ==> before(#[trigger] s[i], #[trigger] s[j])
}

/// Whether a list is sorted, has no duplicates, and holds what another holds.
pub open spec fn is_set_of(s: Seq<Endpoint>, all: Seq<Endpoint>) -> bool {
    &&& ascending(s)
    &&& forall|e: Endpoint| s.contains(e) <==> #[trigger] all.contains(e)
}

proof fn lemma_before(a: Endpoint, b: Endpoint)
    ensures
        before(a, b) ==> !before(b, a) && a != b,
        before(a, b) || before(b, a) || a == b,
{
    lemma_precedes_total(a.ip, b.ip);
    lemma_precedes_irreflexive(a.ip);
    if precedes(a.ip, b.ip) {
        lemma_precedes_asymmetric(a.ip, b.ip);
    }
    if a.ip == b.ip && a.port == b.port {
        assert(a == b);
    }
}

proof fn lemma_before_transitive(a: Endpoint, b: Endpoint, c: Endpoint)
    requires
        before(a, b),
        before(b, c),
    ensures
        before(a, c),
{
    if precedes(a.ip, b.ip) && precedes(b.ip, c.ip) {
        lemma_precedes_transitive(a.ip, b.ip, c.ip);
    }
}

/// Compare two addresses.
fn order_addr(a: &PeerAddr, b: &PeerAddr) -> (r: Order)
    ensures
        r == Order::Less <==> before(a@, b@),
        r == Order::Equal <==> a@ == b@,
        r == Order::Greater <==> before(b@, a@),
{
    proof {
        lemma_before(a@, b@);
        lemma_before(b@, a@);
    }
    let ips = match a.ip {
        IpAddr::V4(x) => match b.ip {
            IpAddr::V4(y) => order_bytes(x.as_slice(), y.as_slice()),
            IpAddr::V6(y) => Order::Less,
        },
        IpAddr::V6(x) => match b.ip {
            IpAddr::V4(y) => Order::Greater,
            IpAddr::V6(y) => order_bytes(x.as_slice(), y.as_slice()),
        },
    };
    match ips {
        Order::Equal => if a.port < b.port {
            Order::Less
        } else if a.port > b.port {
            Order::Greater
        } else {
            Order::Equal
        },
        other => other,
    }
}

/// Add an address to a sorted list.
fn insert_addr(list: &mut Vec<PeerAddr>, a: PeerAddr)
    requires
        ascending(endpoints(old(list)@)),
    ensures
        ascending(endpoints(final(list)@)),
        forall|e: Endpoint|
            endpoints(final(list)@).contains(e) <==> endpoints(old(list)@).contains(e) || e == a@,
{
    let ghost s = endpoints(list@);
    let mut at: usize = 0;
    while at < list.len()
        invariant
            *list == *old(list),
            s == endpoints(list@),
            at <= list.len(),
            ascending(s),
            forall|i: int| 0 <= i < at ==> before(#[trigger] s[i], a@),
        decreases list.len() - at,
    {
        match order_addr(&list[at], &a) {
            Order::Less => {},
            Order::Equal => {
                assert(s[at as int] == a@);
                return ;
            },
            Order::Greater => {
                proof {
                    assert(before(a@, s[at as int]));
                    assert forall|j: int| at <= j < s.len() implies before(a@, #[trigger] s[j]) by {
                        if j > at {
                            lemma_before_transitive(a@, s[at as int], s[j]);
                        }
                    }
                    lemma_inserted(s, at as int, a@);
                }
                list.insert(at, a);
                assert(endpoints(list@) =~= s.insert(at as int, a@));
                return ;
            },
        }
        at = at + 1;
    }
    proof {
        lemma_inserted(s, at as int, a@);
    }
    list.push(a);
    assert(endpoints(list@) =~= s.insert(at as int, a@));
}

proof fn lemma_inserted(s: Seq<Endpoint>, at: int, a: Endpoint)
    requires
        ascending(s),
        0 <= at <= s.len(),
        forall|i: int| 0 <= i < at ==> before(#[trigger] s[i], a),
        forall|i: int| at <= i < s.len() ==> before(a, #[trigger] s[i]),
    ensures
        ascending(s.insert(at, a)),
        forall|e: Endpoint| #[trigger] s.insert(at, a).contains(e) <==> s.contains(e) || e == a,
{
    let t = s.insert(at, a);
    assert forall|e: Endpoint| #[trigger] t.contains(e) <==> s.contains(e) || e == a by {
        if s.contains(e) {
            let i = s.index_of(e);
            assert(t[if i < at {
                i
            } else {
                i + 1
            }] == e);
        }
        assert(t[at] == a);
        if t.contains(e) && e != a {
            let i = t.index_of(e);
            assert(s[if i < at {
                i
            } else {
                i - 1
            }] == e);
        }
    }
    assert forall|i: int, j: int| 0 <= i < j < t.len() implies before(
        #[trigger] t[i],
        #[trigger] t[j],
    ) by {
        if i < at && j > at {
            assert(before(s[i], s[j - 1]));
        } else if i > at {
            assert(before(s[i - 1], s[j - 1]));
        }
    }
}

/// The addresses of a list, sorted and without duplicates.
pub fn sorted_peers(all: &Vec<PeerAddr>) -> (list: Vec<PeerAddr>)
    ensures
        is_set_of(endpoints(list@), endpoints(all@)),
{
    let mut list: Vec<PeerAddr> = Vec::new();
    let mut i: usize = 0;
    while i < all.len()
        invariant
            i <= all.len(),
            is_set_of(endpoints(list@), endpoints(all@).take(i as int)),
        decreases all.len() - i,
    {
        let ghost s = endpoints(all@);
        let ghost before = endpoints(list@);
        insert_addr(&mut list, all[i]);
        proof {
            let t = endpoints(list@);
            let head = s.take(i as int);
            let more = s.take(i + 1);
            assert(more =~= head.push(s[i as int]));
            assert forall|e: Endpoint| t.contains(e) <==> #[trigger] more.contains(e) by {
                if head.contains(e) {
                    let k = head.index_of(e);
                    assert(more[k] == e);
                }
                assert(more[i as int] == s[i as int]);
                if more.contains(e) && e != s[i as int] {
                    let k = more.index_of(e);
                    assert(head[k] == e);
                }
                assert(before.contains(e) <==> head.contains(e));
            }
        }
        i = i + 1;
    }
    assert(endpoints(all@).take(i as int) =~= endpoints(all@));
    list
}

// The round

/// A round of announces.
pub struct AnnounceRound {
    tier: usize,
    index: usize,
    peers: Vec<PeerAddr>,
    responded: bool,
}

/// The content of an [`AnnounceRound`].
#[verifier::ext_equal]
pub struct Round {
    /// The tier, and the tracker in it, from where on trackers are still to be tried.
    pub tier: int,
    pub index: int,
    /// The peers found so far.
    pub peers: Seq<Endpoint>,
    /// Whether a tracker has responded.
    pub responded: bool,
}

impl View for AnnounceRound {
    type V = Round;

    closed spec fn view(&self) -> Round {
        Round {
            tier: self.tier as int,
            index: self.index as int,
            peers: endpoints(self.peers@),
            responded: self.responded,
        }
    }
}

/// The first tracker of a supported scheme, from a tracker of a tier on.
pub open spec fn next_tracker(
    trackers: Seq<Seq<Seq<char>>>,
    tier: int,
    index: int,
) -> Option<(int, int)>
    decreases trackers.len() - tier, trackers[tier].len() - index,
{
    if tier < 0 || tier >= trackers.len() || index < 0 {
        None
    } else if index >= trackers[tier].len() {
        next_tracker(trackers, tier + 1, 0)
    } else if scheme(trackers[tier][index]) != Scheme::Unsupported {
        Some((tier, index))
    } else {
        next_tracker(trackers, tier, index + 1)
    }
}

impl Round {
    pub open spec fn start() -> Round {
        Round { tier: 0, index: 0, peers: seq![], responded: false }
    }

    /// The round after the tracker that was tried responded with peers, or did
    /// not respond.
    pub open spec fn answered(self, answer: Option<Seq<Endpoint>>) -> Round {
        match answer {
            Some(peers) => Round {
                tier: self.tier + 1,
                index: 0,
                peers: self.peers + peers,
                responded: true,
            },
            None => Round { index: self.index + 1, ..self },
        }
    }

    /// Whether a tracker is the one that is tried.
    pub open spec fn is_trying(self, trackers: Seq<Seq<Seq<char>>>) -> bool {
        &&& 0 <= self.tier < trackers.len()
        &&& 0 <= self.index < trackers[self.tier].len()
    }
}

impl AnnounceRound {
    pub fn start() -> (r: AnnounceRound)
        ensures
            r@ == Round::start(),
    {
        let r = AnnounceRound { tier: 0, index: 0, peers: Vec::new(), responded: false };
        assert(endpoints(r.peers@) =~= seq![]);
        r
    }

    /// The tracker to try next: its tier, and its place in it.
    pub fn next(&mut self, meta: &Metainfo) -> (r: Option<(usize, usize)>)
        ensures
            match next_tracker(meta@.trackers, old(self)@.tier, old(self)@.index) {
                Some((tier, index)) => {
                    &&& r matches Some(p) && p.0 == tier && p.1 == index
                    &&& final(self)@ == (Round { tier, index, ..old(self)@ })
                    &&& final(self)@.is_trying(meta@.trackers)
                },
                None => {
                    &&& r is None
                    &&& final(self)@.peers == old(self)@.peers
                    &&& final(self)@.responded == old(self)@.responded
                },
            },
    {
        let ghost trackers = meta@.trackers;
        while self.tier < meta.trackers.len()
            invariant
                trackers == meta@.trackers,
                self.peers == old(self).peers,
                self.responded == old(self).responded,
                next_tracker(trackers, self@.tier, self@.index) == next_tracker(
                    trackers,
                    old(self)@.tier,
                    old(self)@.index,
                ),
            decreases
                    meta.trackers.len() - self.tier,
                    if self.tier < meta.trackers.len() {
                        meta.trackers[self.tier as int].len() - self.index
                    } else {
                        0
                    },
        {
            let tier = &meta.trackers[self.tier];
            assert(trackers[self.tier as int] == texts(tier@));
            if self.index < tier.len() {
                assert(trackers[self.tier as int][self.index as int] == tier@[self.index as int]@);
                if scheme_of(tier[self.index].as_str()) != Scheme::Unsupported {
                    return Some((self.tier, self.index));
                }
                self.index = self.index + 1;
            } else {
                self.tier = self.tier + 1;
                self.index = 0;
            }
        }
        None
    }

    /// Take in the answer of the tracker that was tried: the peers that it
    /// found, or nothing if it did not respond.
    pub fn on_answer(&mut self, meta: &Metainfo, answer: &Option<Vec<PeerAddr>>)
        requires
            old(self)@.is_trying(meta@.trackers),
        ensures
            final(self)@ == old(self)@.answered(
                match answer {
                    Some(peers) => Some(endpoints(peers@)),
                    None => None,
                },
            ),
    {
        proof {
            assert(meta@.trackers[self.tier as int] == texts(meta.trackers@[self.tier as int]@));
            assert(self.tier < meta.trackers.len());
            assert(self.index < meta.trackers[self.tier as int].len());
        }
        match answer {
            Some(peers) => {
                self.responded = true;
                self.add_peers(peers);
                self.tier = self.tier + 1;
                self.index = 0;
            },
            None => {
                self.index = self.index + 1;
            },
        }
    }

    /// Add peers that were found otherwise.
    pub fn add_peers(&mut self, peers: &Vec<PeerAddr>)
        ensures
            final(self)@ == (Round {
                peers: old(self)@.peers + endpoints(peers@),
                ..old(self)@
            }),
    {
        let mut i: usize = 0;
        while i < peers.len()
            invariant
                i <= peers.len(),
                self.tier == old(self).tier,
                self.index == old(self).index,
                self.responded == old(self).responded,
                self@.peers == old(self)@.peers + endpoints(peers@).take(i as int),
            decreases peers.len() - i,
        {
            let ghost so_far = self@.peers;
            self.peers.push(peers[i]);
            i = i + 1;
            assert(self@.peers =~= so_far.push(peers@[i - 1]@));
            assert(self@.peers =~= old(self)@.peers + endpoints(peers@).take(i as int));
        }
        assert(endpoints(peers@).take(i as int) =~= endpoints(peers@));
    }

    /// Whether the DHT should be asked after the trackers.
    pub fn wants_dht(&self, event: Event) -> (r: bool)
        ensures
            r == (self@.peers.len() == 0 && event == Event::Started),
    {
        self.peers.len() == 0 && event == Event::Started
    }

    /// The peers that were found, sorted and without duplicates, and whether a
    /// tracker responded.
    pub fn finish(self) -> (r: (Vec<PeerAddr>, bool))
        ensures
            is_set_of(endpoints(r.0@), self@.peers),
            r.1 == self@.responded,
    {
        (sorted_peers(&self.peers), self.responded)
    }
}

// Laws

/// A sorted list without duplicates is determined by what it holds.
pub proof fn lemma_sorted_peers_are_unique(a: Seq<Endpoint>, b: Seq<Endpoint>, all: Seq<Endpoint>)
    requires
        is_set_of(a, all),
        is_set_of(b, all),
    ensures
        a == b,
{
    assert forall|e: Endpoint| a.contains(e) <==> #[trigger] b.contains(e) by {
        assert(a.contains(e) <==> all.contains(e));
    }
    lemma_same_prefix(a, b, a.len() as int);
    if a.len() < b.len() {
        let e = b[a.len() as int];
        assert(b.contains(e));
        let i = a.index_of(e);
        assert(b[i] == e);
        lemma_before(b[i], b[a.len() as int]);
    }
    assert(a =~= b);
}

proof fn lemma_same_prefix(a: Seq<Endpoint>, b: Seq<Endpoint>, n: int)
    requires
        ascending(a),
        ascending(b),
        forall|e: Endpoint| a.contains(e) <==> #[trigger] b.contains(e),
        0 <= n <= a.len(),
    ensures
        n <= b.len(),
        forall|i: int| 0 <= i < n ==> a[i] == b[i],
    decreases n,
{
    if n > 0 {
        lemma_same_prefix(a, b, n - 1);
        let m = n - 1;
        assert(a.contains(a[m]));
        assert(b.contains(a[m]));
        let j = b.index_of(a[m]);
        if j < m {
            lemma_before(a[j], a[m]);
        }
        if j > m {
            assert(b.contains(b[m]));
            assert(a.contains(b[m]));
            let k = a.index_of(b[m]);
            if k < m {
                lemma_before(b[k], b[m]);
            } else if k > m {
                lemma_before(a[m], a[k]);
                lemma_before(b[m], b[j]);
            } else {
                lemma_before(b[m], b[j]);
            }
        }
    }
}

/// What the first responsive tracker of a tier found, from a tracker on.
pub open spec fn tier_peers(
    urls: Seq<Seq<char>>,
    answers: Seq<Option<Seq<Endpoint>>>,
    from: int,
) -> Seq<Endpoint>
    decreases urls.len() - from,
{
    if from < 0 || from >= urls.len() {
        seq![]
    } else if scheme(urls[from]) != Scheme::Unsupported && answers[from] is Some {
        answers[from]->0
    } else {
        tier_peers(urls, answers, from + 1)
    }
}

/// What the first responsive trackers of the tiers found, from a tier on.
pub open spec fn all_peers(
    trackers: Seq<Seq<Seq<char>>>,
    answers: Seq<Seq<Option<Seq<Endpoint>>>>,
    tier: int,
) -> Seq<Endpoint>
    decreases trackers.len() - tier,
{
    if tier < 0 || tier >= trackers.len() {
        seq![]
    } else {
        tier_peers(trackers[tier], answers[tier], 0) + all_peers(trackers, answers, tier + 1)
    }
}

/// Whether a tracker of a supported scheme responds.
pub open spec fn responds(
    trackers: Seq<Seq<Seq<char>>>,
    answers: Seq<Seq<Option<Seq<Endpoint>>>>,
    tier: int,
    index: int,
) -> bool {
    &&& 0 <= tier < trackers.len()
    &&& 0 <= index < trackers[tier].len()
    &&& scheme(trackers[tier][index]) != Scheme::Unsupported
    &&& answers[tier][index] is Some
}

/// Try one tracker after the other, each of which answers as given.
pub open spec fn run(
    trackers: Seq<Seq<Seq<char>>>,
    answers: Seq<Seq<Option<Seq<Endpoint>>>>,
    r: Round,
) -> Round
    decreases
            trackers.len() - r.tier,
            if 0 <= r.tier < trackers.len() {
                trackers[r.tier].len() - r.index
            } else {
                0
            },
{
    proof {
        lemma_next_tracker(trackers, r.tier, r.index);
    }
    match next_tracker(trackers, r.tier, r.index) {
        Some((tier, index)) => run(
            trackers,
            answers,
            (Round { tier, index, ..r }).answered(answers[tier][index]),
        ),
        None => r,
    }
}

/// The next tracker does not come before the ones that are still to be tried.
pub proof fn lemma_next_tracker(trackers: Seq<Seq<Seq<char>>>, tier: int, index: int)
    ensures
        next_tracker(trackers, tier, index) matches Some((t, i)) ==> {
            &&& 0 <= tier <= t < trackers.len()
            &&& 0 <= i < trackers[t].len()
            &&& t == tier ==> 0 <= index <= i
            &&& scheme(trackers[t][i]) != Scheme::Unsupported
        },
    decreases trackers.len() - tier, trackers[tier].len() - index,
{
    if tier < 0 || tier >= trackers.len() || index < 0 {
    } else if index >= trackers[tier].len() {
        lemma_next_tracker(trackers, tier + 1, 0);
    } else if scheme(trackers[tier][index]) != Scheme::Unsupported {
    } else {
        lemma_next_tracker(trackers, tier, index + 1);
    }
}

/// A round finds what the first responsive tracker of each tier found, and
/// knows whether a tracker responded.
pub proof fn lemma_round(
    trackers: Seq<Seq<Seq<char>>>,
    answers: Seq<Seq<Option<Seq<Endpoint>>>>,
)
    ensures
        run(trackers, answers, Round::start()).peers == all_peers(trackers, answers, 0),
        run(trackers, answers, Round::start()).responded <==> exists|tier: int, index: int|
            responds(trackers, answers, tier, index),
{
    lemma_run(trackers, answers, Round::start());
    if trackers.len() > 0 {
        assert(all_peers(trackers, answers, 0) == tier_peers(trackers[0], answers[0], 0)
            + all_peers(trackers, answers, 1));
    }
    let end = run(trackers, answers, Round::start());
    assert(end.peers =~= all_peers(trackers, answers, 0));
}

proof fn lemma_run(
    trackers: Seq<Seq<Seq<char>>>,
    answers: Seq<Seq<Option<Seq<Endpoint>>>>,
    r: Round,
)
    requires
        0 <= r.tier,
        0 <= r.index,
    ensures
        ({
            let end = run(trackers, answers, r);
            &&& end.peers == r.peers + rest(trackers, answers, r.tier, r.index)
            &&& r.responded ==> end.responded
            &&& forall|tier: int, index: int|
                #[trigger] responds(trackers, answers, tier, index) && (tier > r.tier || tier
                    == r.tier && index >= r.index) ==> end.responded
            &&& end.responded ==> r.responded || exists|tier: int, index: int|
                responds(trackers, answers, tier, index)
        }),
    decreases
            trackers.len() - r.tier,
            if r.tier < trackers.len() {
                trackers[r.tier].len() - r.index
            } else {
                0
            },
{
    lemma_next_tracker(trackers, r.tier, r.index);
    lemma_skipped(trackers, answers, r.tier, r.index);
    match next_tracker(trackers, r.tier, r.index) {
        Some((tier, index)) => {
            let at = Round { tier, index, ..r };
            let next = at.answered(answers[tier][index]);
            lemma_run(trackers, answers, next);
            let end = run(trackers, answers, r);
            assert(end == run(trackers, answers, next));
            assert(rest(trackers, answers, tier, index) =~= match answers[tier][index] {
                Some(peers) => peers + rest(trackers, answers, tier + 1, 0),
                None => rest(trackers, answers, tier, index + 1),
            }) by {
                if tier + 1 < trackers.len() {
                    assert(all_peers(trackers, answers, tier + 1) =~= rest(
                        trackers,
                        answers,
                        tier + 1,
                        0,
                    ));
                }
            }
            assert(end.peers =~= r.peers + rest(trackers, answers, r.tier, r.index));
            if answers[tier][index] is Some {
                assert(responds(trackers, answers, tier, index));
            }
        },
        None => {},
    }
}

/// What is still to be found from a tracker of a tier on.
spec fn rest(
    trackers: Seq<Seq<Seq<char>>>,
    answers: Seq<Seq<Option<Seq<Endpoint>>>>,
    tier: int,
    index: int,
) -> Seq<Endpoint> {
    if tier < 0 || tier >= trackers.len() {
        seq![]
    } else {
        tier_peers(trackers[tier], answers[tier], index) + all_peers(trackers, answers, tier + 1)
    }
}

/// What is skipped on the way to the next tracker has nothing to add.
proof fn lemma_skipped(
    trackers: Seq<Seq<Seq<char>>>,
    answers: Seq<Seq<Option<Seq<Endpoint>>>>,
    tier: int,
    index: int,
)
    requires
        0 <= tier,
        0 <= index,
    ensures
        match next_tracker(trackers, tier, index) {
            Some((t, i)) => {
                &&& rest(trackers, answers, tier, index) == rest(trackers, answers, t, i)
                &&& forall|x: int, y: int| #[trigger]
                    responds(trackers, answers, x, y) && (x > tier || x == tier && y >= index)
                        ==> x > t || x == t && y >= i
            },
            None => {
                &&& rest(trackers, answers, tier, index) == Seq::<Endpoint>::empty()
                &&& forall|x: int, y: int|
                    x > tier || x == tier && y >= index ==> !#[trigger] responds(
                        trackers,
                        answers,
                        x,
                        y,
                    )
            },
        },
    decreases trackers.len() - tier, trackers[tier].len() - index,
{
    if tier >= trackers.len() {
    } else if index >= trackers[tier].len() {
        lemma_skipped(trackers, answers, tier + 1, 0);
        assert(rest(trackers, answers, tier, index) =~= rest(trackers, answers, tier + 1, 0));
    } else if scheme(trackers[tier][index]) != Scheme::Unsupported {
    } else {
        lemma_skipped(trackers, answers, tier, index + 1);
    }
}

/// Addresses of IPv4 come before those of IPv6, addresses of one kind are
/// ordered by their first octet that differs, and those of one host by the port.
pub proof fn lemma_order(a: Endpoint, b: Endpoint, i: int)
    ensures
        a.ip.len() == 4 && b.ip.len() == 16 ==> before(a, b) && !before(b, a),
        a.ip == b.ip ==> (before(a, b) <==> a.port < b.port),
        a.ip.len() == b.ip.len() && 0 <= i < a.ip.len() && a.ip.take(i) == b.ip.take(i) && a.ip[i]
            < b.ip[i] ==> before(a, b) && !before(b, a),
{
    if a.ip == b.ip {
        lemma_precedes_irreflexive(a.ip);
    }
    if a.ip.len() == b.ip.len() && 0 <= i < a.ip.len() && a.ip.take(i) == b.ip.take(i) && a.ip[i]
        < b.ip[i] {
        assert forall|j: int| 0 <= j < i implies a.ip[j] == b.ip[j] by {
            assert(a.ip.take(i)[j] == b.ip.take(i)[j]);
        }
        assert(differs_at(a.ip, b.ip, i));
        lemma_precedes_asymmetric(a.ip, b.ip);
    }
}

} // verus!

//! Tracker announce: HTTP (BEP-3) and UDP (BEP-15).

use vstd::prelude::*;

use crate::text::{after_prefix, chars_of, has_prefix, lemma_has_prefix, opt_text};
use crate::types::{endpoints, Endpoint, InfoHash, PeerAddr, PeerId};

pub mod http;
pub mod udp;

verus! {

/// Tracker announce event types (BEP-3 / BEP-15).
#[derive(Debug, Clone, Copy, PartialEq, Eq, Structural)]
pub enum Event {
    Started,
    Stopped,
    Completed,
}

/// The name of an event in an announce URL.
pub open spec fn event_name(e: Event) -> Seq<char> {
    match e {
        Event::Started => "started"@,
        Event::Stopped => "stopped"@,
        Event::Completed => "completed"@,
    }
}

impl Event {
    pub fn as_str(self) -> (r: &'static str)
        ensures
            r@ == event_name(self),
    {
        match self {
            Event::Started => "started",
            Event::Stopped => "stopped",
            Event::Completed => "completed",
        }
    }
}

/// Parameters for a tracker announce request.
pub struct AnnounceRequest<'a> {
    pub tracker_url: &'a str,
    pub info_hash: InfoHash,
    pub peer_id: PeerId,
    pub port: u16,
    pub uploaded: u64,
    pub downloaded: u64,
    pub left: u64,
    pub event: Option<Event>,
    pub num_want: i32,
}

/// Data returned by a successful tracker announce.
pub struct AnnounceResponse {
    pub peers: Vec<PeerAddr>,
    pub interval: u64,
    pub warning: Option<String>,
}

/// The content of an [`AnnounceResponse`].
#[verifier::ext_equal]
pub struct Announced {
    pub peers: Seq<Endpoint>,
    pub interval: u64,
    pub warning: Option<Seq<char>>,
}

impl View for AnnounceResponse {
    type V = Announced;

    open spec fn view(&self) -> Announced {
        Announced {
            peers: endpoints(self.peers@),
            interval: self.interval,
            warning: opt_text(self.warning),
        }
    }
}

/// The protocol that a tracker URL asks for.
#[derive(Debug, Clone, Copy, PartialEq, Eq, Structural)]
pub enum Scheme {
    Udp,
    Http,
    Unsupported,
}

pub open spec fn scheme(url: Seq<char>) -> Scheme {
    if has_prefix(url, "udp://"@) || has_prefix(url, "UDP://"@) {
        Scheme::Udp
    } else if has_prefix(url, "http://"@) || has_prefix(url, "https://"@) {
        Scheme::Http
    } else {
        Scheme::Unsupported
    }
}

/// The protocol that a tracker URL asks for.
pub fn scheme_of(url: &str) -> (r: Scheme)
    ensures
        r == scheme(url@),
{
    let chars = chars_of(url);
    if after_prefix(&chars, "udp://").is_some() || after_prefix(&chars, "UDP://").is_some() {
        Scheme::Udp
    } else if after_prefix(&chars, "http://").is_some() || after_prefix(
        &chars,
        "https://",
    ).is_some() {
        Scheme::Http
    } else {
        Scheme::Unsupported
    }
}

// Laws

/// A tracker's protocol is told by how its URL begins, and by nothing else.
pub proof fn lemma_scheme(rest: Seq<char>)
    ensures
        scheme("udp://"@ + rest) == Scheme::Udp,
        scheme("UDP://"@ + rest) == Scheme::Udp,
        scheme("http://"@ + rest) == Scheme::Http,
        scheme("https://"@ + rest) == Scheme::Http,
        scheme(rest) == Scheme::Udp ==> rest == "udp://"@ + rest.skip(6) || rest == "UDP://"@
            + rest.skip(6),
        scheme(rest) == Scheme::Http ==> rest == "http://"@ + rest.skip(7) || rest == "https://"@
            + rest.skip(8),
{
    reveal_strlit("udp://");
    reveal_strlit("UDP://");
    reveal_strlit("http://");
    reveal_strlit("https://");
    let a = "udp://"@ + rest;
    let b = "UDP://"@ + rest;
    let c = "http://"@ + rest;
    let d = "https://"@ + rest;
    assert(a.take(6) =~= "udp://"@);
    assert(b.take(6) =~= "UDP://"@);
    assert(c.take(7) =~= "http://"@);
    assert(d.take(8) =~= "https://"@);
    assert(c[0] == 'h' && d[0] == 'h');
    lemma_first(c, "udp://"@);
    lemma_first(c, "UDP://"@);
    lemma_first(d, "udp://"@);
    lemma_first(d, "UDP://"@);
    lemma_has_prefix(rest, "udp://"@, rest);
    lemma_has_prefix(rest, "UDP://"@, rest);
    lemma_has_prefix(rest, "http://"@, rest);
    lemma_has_prefix(rest, "https://"@, rest);
}

proof fn lemma_first(s: Seq<char>, prefix: Seq<char>)
    requires
        prefix.len() > 0,
    ensures
        has_prefix(s, prefix) ==> s[0] == prefix[0],
{
    if has_prefix(s, prefix) {
        assert(s.take(prefix.len() as int)[0] == s[0]);
    }
}

} // verus!

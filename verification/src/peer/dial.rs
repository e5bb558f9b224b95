//! How a connection to a peer comes about: encrypted if the peer supports it,
//! and over a new plain connection otherwise.

use vstd::prelude::*;

verus! {

/// What happened while a peer was dialled.
#[derive(Debug, Clone, Copy, PartialEq, Eq, Structural)]
pub enum DialEvent {
    Connected,
    /// The encryption handshake is done.
    Negotiated,
    /// The handshake of the peer wire protocol is done.
    ShookHands,
    /// What was to be done failed.
    Failed,
}

/// What to do next.
#[derive(Debug, Clone, Copy, PartialEq, Eq, Structural)]
pub enum DialAction {
    /// Open a new connection to the peer.
    Connect,
    /// Do the encryption handshake.
    Negotiate,
    /// Do the handshake of the peer wire protocol.
    ShakeHands,
    /// The connection is ready.
    Ready,
    /// The peer cannot be reached.
    GiveUp,
}

/// Where the dialling of a peer stands.
#[derive(Debug, Clone, Copy, PartialEq, Eq, Structural)]
pub enum Dial {
    Connecting,
    Negotiating,
    ShakingHands,
    /// The plain connection that follows a failed encrypted one.
    Reconnecting,
    ShakingHandsPlain,
    Over,
}

impl Dial {
    /// Where dialling stands, and what to do, after something happened.
    pub open spec fn after(self, e: DialEvent) -> (Dial, DialAction) {
        match (self, e) {
            (Dial::Connecting, DialEvent::Connected) => (Dial::Negotiating, DialAction::Negotiate),
            (Dial::Negotiating, DialEvent::Negotiated) => (
                Dial::ShakingHands,
                DialAction::ShakeHands,
            ),
            (Dial::Negotiating, DialEvent::Failed) => (Dial::Reconnecting, DialAction::Connect),
            (Dial::ShakingHands, DialEvent::ShookHands) => (Dial::Over, DialAction::Ready),
            (Dial::ShakingHands, DialEvent::Failed) => (Dial::Reconnecting, DialAction::Connect),
            (Dial::Reconnecting, DialEvent::Connected) => (
                Dial::ShakingHandsPlain,
                DialAction::ShakeHands,
            ),
            (Dial::ShakingHandsPlain, DialEvent::ShookHands) => (Dial::Over, DialAction::Ready),
            _ => (Dial::Over, DialAction::GiveUp),
        }
    }

    /// Begin to dial a peer: the first thing to do is to connect.
    pub fn start() -> (d: Dial)
        ensures
            d == Dial::Connecting,
    {
        Dial::Connecting
    }

    /// Go on after something happened.
    pub fn step(&mut self, e: DialEvent) -> (a: DialAction)
        ensures
            (*final(self), a) == old(self).after(e),
    {
        let (next, action) = match (*self, e) {
            (Dial::Connecting, DialEvent::Connected) => (Dial::Negotiating, DialAction::Negotiate),
            (Dial::Negotiating, DialEvent::Negotiated) => (
                Dial::ShakingHands,
                DialAction::ShakeHands,
            ),
            (Dial::Negotiating, DialEvent::Failed) => (Dial::Reconnecting, DialAction::Connect),
            (Dial::ShakingHands, DialEvent::ShookHands) => (Dial::Over, DialAction::Ready),
            (Dial::ShakingHands, DialEvent::Failed) => (Dial::Reconnecting, DialAction::Connect),
            (Dial::Reconnecting, DialEvent::Connected) => (
                Dial::ShakingHandsPlain,
                DialAction::ShakeHands,
            ),
            (Dial::ShakingHandsPlain, DialEvent::ShookHands) => (Dial::Over, DialAction::Ready),
            _ => (Dial::Over, DialAction::GiveUp),
        };
        *self = next;
        action
    }
}

// Laws

/// Where dialling stands after a series of events.
pub open spec fn after_all(d: Dial, events: Seq<DialEvent>) -> Dial
    decreases events.len(),
{
    if events.len() == 0 {
        d
    } else {
        after_all(d, events.drop_last()).after(events.last()).0
    }
}

/// How often a new connection is asked for in the course of events.
pub open spec fn connections(d: Dial, events: Seq<DialEvent>) -> nat
    decreases events.len(),
{
    if events.len() == 0 {
        0
    } else {
        connections(d, events.drop_last()) + if after_all(d, events.drop_last()).after(
            events.last(),
        ).1 == DialAction::Connect {
            1nat
        } else {
            0nat
        }
    }
}

/// A peer that is reached but fails the encryption, or the handshake over it, is
/// tried over a plain connection, and a peer is reconnected to at most once.
pub proof fn lemma_plain_fallback(events: Seq<DialEvent>)
    ensures
        forall|d: Dial|
            d == Dial::Negotiating || d == Dial::ShakingHands ==> #[trigger] d.after(
                DialEvent::Failed,
            ) == (Dial::Reconnecting, DialAction::Connect),
        connections(Dial::Connecting, events) <= 1,
        connections(Dial::Connecting, events) == 1 ==> {
            let d = after_all(Dial::Connecting, events);
            d == Dial::Reconnecting || d == Dial::ShakingHandsPlain || d == Dial::Over
        },
    decreases events.len(),
{
    if events.len() > 0 {
        lemma_plain_fallback(events.drop_last());
    }
}

/// The events of a peer that is connected to and negotiates encryption.
pub open spec fn encrypted() -> Seq<DialEvent> {
    seq![DialEvent::Connected, DialEvent::Negotiated]
}

/// Whether an encrypted connection was tried and failed: while encryption was
/// negotiated, or in the handshake over it.
pub open spec fn encryption_failed(events: Seq<DialEvent>) -> bool {
    ||| events == seq![DialEvent::Connected, DialEvent::Failed]
    ||| events == encrypted().push(DialEvent::Failed)
}

proof fn lemma_states(events: Seq<DialEvent>)
    ensures
        ({
            let d = after_all(Dial::Connecting, events);
            &&& d == Dial::Connecting <==> events.len() == 0
            &&& d == Dial::Negotiating <==> events == seq![DialEvent::Connected]
            &&& d == Dial::ShakingHands <==> events == encrypted()
            &&& d == Dial::Reconnecting <==> encryption_failed(events)
            &&& d == Dial::ShakingHandsPlain <==> events.len() > 0 && encryption_failed(
                events.drop_last(),
            ) && events.last() == DialEvent::Connected
        }),
    decreases events.len(),
{
    if events.len() > 0 {
        let head = events.drop_last();
        let last = events.last();
        lemma_states(head);
        assert(events =~= head.push(last));
        assert(events == seq![DialEvent::Connected] <==> head.len() == 0 && last
            == DialEvent::Connected) by {
            if head.len() == 0 && last == DialEvent::Connected {
                assert(events =~= seq![DialEvent::Connected]);
            }
        }
        assert(events == encrypted() <==> head == seq![DialEvent::Connected] && last
            == DialEvent::Negotiated) by {
            if head == seq![DialEvent::Connected] && last == DialEvent::Negotiated {
                assert(events =~= encrypted());
            }
            if events == encrypted() {
                assert(head =~= seq![DialEvent::Connected]);
            }
        }
        assert(encryption_failed(events) <==> (head == seq![DialEvent::Connected] || head
            == encrypted()) && last == DialEvent::Failed) by {
            if head == seq![DialEvent::Connected] && last == DialEvent::Failed {
                assert(events =~= seq![DialEvent::Connected, DialEvent::Failed]);
            }
            if head == encrypted() && last == DialEvent::Failed {
                assert(events =~= encrypted().push(DialEvent::Failed));
            }
            if events == seq![DialEvent::Connected, DialEvent::Failed] {
                assert(head =~= seq![DialEvent::Connected]);
            }
            if events == encrypted().push(DialEvent::Failed) {
                assert(head =~= encrypted());
            }
        }
    }
}

/// A connection is ready when the handshake is done over an encrypted one, or
/// over the plain one that follows when encryption failed, and in no other way.
/// Encryption is always tried first, and plainly only after it failed.
pub proof fn lemma_ways_to_connect(events: Seq<DialEvent>, last: DialEvent)
    ensures
        ({
            let action = after_all(Dial::Connecting, events).after(last).1;
            let plain = events.len() > 0 && encryption_failed(events.drop_last()) && events.last()
                == DialEvent::Connected;
            &&& action == DialAction::Ready <==> (events == encrypted() || plain) && last
                == DialEvent::ShookHands
            &&& action == DialAction::Negotiate <==> events.len() == 0 && last
                == DialEvent::Connected
            &&& action == DialAction::ShakeHands <==> (events == seq![DialEvent::Connected] && last
                == DialEvent::Negotiated) || (encryption_failed(events) && last
                == DialEvent::Connected)
            &&& action == DialAction::Connect <==> (events == seq![DialEvent::Connected] || events
                == encrypted()) && last == DialEvent::Failed
            &&& action == DialAction::GiveUp || action == DialAction::Ready ==> after_all(
                Dial::Connecting,
                events,
            ).after(last).0 == Dial::Over
        }),
{
    lemma_states(events);
}

} // verus!

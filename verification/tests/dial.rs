use stormdrain::peer::dial::{Dial, DialAction, DialEvent};

fn run(events: &[DialEvent]) -> Vec<DialAction> {
    let mut d = Dial::start();
    events.iter().map(|e| d.step(*e)).collect()
}

#[test]
fn an_encrypted_connection() {
    assert_eq!(
        run(&[
            DialEvent::Connected,
            DialEvent::Negotiated,
            DialEvent::ShookHands
        ]),
        vec![
            DialAction::Negotiate,
            DialAction::ShakeHands,
            DialAction::Ready
        ]
    );
}

#[test]
fn a_plain_connection_after_failed_encryption() {
    assert_eq!(
        run(&[
            DialEvent::Connected,
            DialEvent::Failed,
            DialEvent::Connected,
            DialEvent::ShookHands
        ]),
        vec![
            DialAction::Negotiate,
            DialAction::Connect,
            DialAction::ShakeHands,
            DialAction::Ready
        ]
    );
}

#[test]
fn a_plain_connection_after_a_failed_handshake() {
    assert_eq!(
        run(&[
            DialEvent::Connected,
            DialEvent::Negotiated,
            DialEvent::Failed,
            DialEvent::Connected,
            DialEvent::Failed
        ]),
        vec![
            DialAction::Negotiate,
            DialAction::ShakeHands,
            DialAction::Connect,
            DialAction::ShakeHands,
            DialAction::GiveUp
        ]
    );
}

#[test]
fn a_peer_that_is_not_there() {
    assert_eq!(run(&[DialEvent::Failed]), vec![DialAction::GiveUp]);
}

//! Tests for the chat core: discovery-driven view maintenance, flooding
//! publish/subscribe, and the application-loop step function.

use floodchat::behaviour::Action;
use floodchat::broadcast::{Message, Topic};
use floodchat::node::{Node, NodeEvent};
use floodchat::peer::PeerId;

fn pid(n: u64) -> PeerId {
    PeerId::new(n)
}

fn chat_topic() -> Topic {
    Topic::new(String::from("chat"))
}

fn new_node(id: u64) -> Node {
    Node::new(pid(id), chat_topic(), 10)
}

fn transmit_targets(acts: &[Action]) -> Vec<u64> {
    let mut out = Vec::new();
    for a in acts {
        if let Action::Transmit(s) = a {
            out.push(s.to.id);
        }
    }
    out
}

fn deliveries(acts: &[Action]) -> Vec<&Message> {
    let mut out = Vec::new();
    for a in acts {
        if let Action::Deliver(m) = a {
            out.push(m);
        }
    }
    out
}

#[test]
fn listen_addr_is_reported() {
    let mut a = new_node(1);
    let acts = a.step(NodeEvent::NewListenAddr(77), 0);
    assert_eq!(acts.len(), 1);
    assert!(matches!(acts[0], Action::ReportListenAddr(77)));
}

#[test]
fn publish_with_empty_view_sends_nothing() {
    let mut a = new_node(1);
    let acts = a.step(NodeEvent::InputLine(b"hello".to_vec()), 0);
    assert_eq!(acts.len(), 0);
}

#[test]
fn discovery_adds_peer_and_publish_reaches_it() {
    let mut a = new_node(1);
    let acts = a.step(NodeEvent::Advertisement(pid(2), 100), 0);
    assert_eq!(acts.len(), 1);
    assert!(matches!(acts[0], Action::LogDiscovered(PeerId { id: 2 })));
    let acts = a.step(NodeEvent::InputLine(b"hi".to_vec()), 1);
    assert_eq!(transmit_targets(&acts), vec![2]);
    if let Action::Transmit(s) = &acts[0] {
        assert_eq!(s.to.id, 2);
        assert_eq!(s.msg.source.id, 1);
        assert_eq!(s.msg.topic.name, "chat");
        assert_eq!(s.msg.data, b"hi".to_vec());
    } else {
        panic!("expected a transmit action");
    }
}

#[test]
fn rediscovery_within_window_is_silent() {
    let mut a = new_node(1);
    let first = a.step(NodeEvent::Advertisement(pid(2), 100), 0);
    assert_eq!(first.len(), 1);
    assert!(matches!(first[0], Action::LogDiscovered(PeerId { id: 2 })));
    // The refresh window is 10 ticks; the repeat advertisement at 5 is a
    // silent refresh: exactly one PeerDiscovered for the two advertisements.
    let second = a.step(NodeEvent::Advertisement(pid(2), 100), 5);
    assert_eq!(second.len(), 0);
    // And the view still holds the peer exactly once.
    let sends = a.step(NodeEvent::InputLine(b"x".to_vec()), 6);
    assert_eq!(transmit_targets(&sends), vec![2]);
}

#[test]
fn rediscovery_after_lapse_is_reported_again() {
    let mut a = new_node(1);
    let first = a.step(NodeEvent::Advertisement(pid(2), 100), 0);
    assert_eq!(first.len(), 1);
    let again = a.step(NodeEvent::Advertisement(pid(2), 100), 30);
    assert_eq!(again.len(), 1);
    assert!(matches!(again[0], Action::LogDiscovered(PeerId { id: 2 })));
    // Still exactly one view entry: the add is idempotent.
    let sends = a.step(NodeEvent::InputLine(b"x".to_vec()), 31);
    assert_eq!(transmit_targets(&sends), vec![2]);
}

#[test]
fn expiry_removes_peer_and_publish_skips_it() {
    let mut a = new_node(1);
    a.step(NodeEvent::Advertisement(pid(2), 100), 0);
    // No refresh arrives within the window of 10: at 11 the record lapses.
    let acts = a.step(NodeEvent::DiscoveryTick, 11);
    assert_eq!(acts.len(), 1);
    assert!(matches!(acts[0], Action::LogExpired(PeerId { id: 2 })));
    // A publish after the expiry must not attempt to send to the peer.
    let sends = a.step(NodeEvent::InputLine(b"anyone?".to_vec()), 12);
    assert_eq!(sends.len(), 0);
}

#[test]
fn tick_before_expiry_keeps_peer() {
    let mut a = new_node(1);
    a.step(NodeEvent::Advertisement(pid(2), 100), 0);
    let acts = a.step(NodeEvent::DiscoveryTick, 9);
    assert_eq!(acts.len(), 0);
    let sends = a.step(NodeEvent::InputLine(b"still there".to_vec()), 9);
    assert_eq!(transmit_targets(&sends), vec![2]);
}

#[test]
fn peer_expires_only_when_all_addresses_lapse() {
    let mut a = new_node(1);
    a.step(NodeEvent::Advertisement(pid(2), 100), 0);
    a.step(NodeEvent::Advertisement(pid(2), 101), 5);
    // At 12 the record for address 100 lapses, but address 101 is fresh
    // until 15: the peer is not reported gone and stays in the view.
    let acts = a.step(NodeEvent::DiscoveryTick, 12);
    assert_eq!(acts.len(), 0);
    let sends = a.step(NodeEvent::InputLine(b"x".to_vec()), 12);
    assert_eq!(transmit_targets(&sends), vec![2]);
    // Once the second address lapses too, the peer is gone.
    let acts = a.step(NodeEvent::DiscoveryTick, 16);
    assert_eq!(acts.len(), 1);
    assert!(matches!(acts[0], Action::LogExpired(PeerId { id: 2 })));
    let sends = a.step(NodeEvent::InputLine(b"x".to_vec()), 16);
    assert_eq!(sends.len(), 0);
}

#[test]
fn view_never_duplicates_a_peer() {
    let mut a = new_node(1);
    // Discover the same peer through many addresses and repeats.
    a.step(NodeEvent::Advertisement(pid(2), 100), 0);
    a.step(NodeEvent::Advertisement(pid(2), 101), 1);
    a.step(NodeEvent::Advertisement(pid(2), 102), 2);
    a.step(NodeEvent::Advertisement(pid(3), 200), 2);
    a.step(NodeEvent::Advertisement(pid(2), 100), 30);
    let sends = a.step(NodeEvent::InputLine(b"x".to_vec()), 31);
    let mut targets = transmit_targets(&sends);
    targets.sort();
    assert_eq!(targets, vec![2, 3]);
}

#[test]
fn subscribed_message_is_delivered_exactly_once() {
    let mut b = new_node(2);
    let msg = Message {
        source: pid(1),
        topic: chat_topic(),
        data: b"hello".to_vec(),
    };
    let acts = b.step(NodeEvent::Inbound(msg), 0);
    let got = deliveries(&acts);
    assert_eq!(got.len(), 1);
    assert_eq!(got[0].source.id, 1);
    assert_eq!(got[0].data, b"hello".to_vec());
}

#[test]
fn unsubscribed_message_is_not_delivered_but_still_forwarded() {
    let mut b = new_node(2);
    b.step(NodeEvent::Advertisement(pid(3), 300), 0);
    let msg = Message {
        source: pid(1),
        topic: Topic::new(String::from("weather")),
        data: b"rain".to_vec(),
    };
    let acts = b.step(NodeEvent::Inbound(msg), 1);
    assert_eq!(deliveries(&acts).len(), 0);
    // Flood semantics: forwarded onward regardless of local interest.
    assert_eq!(transmit_targets(&acts), vec![3]);
}

#[test]
fn inbound_message_is_not_forwarded_back_to_sender() {
    let mut b = new_node(2);
    b.step(NodeEvent::Advertisement(pid(1), 100), 0);
    b.step(NodeEvent::Advertisement(pid(3), 300), 0);
    let msg = Message {
        source: pid(1),
        topic: chat_topic(),
        data: b"hi all".to_vec(),
    };
    let acts = b.step(NodeEvent::Inbound(msg), 1);
    assert_eq!(deliveries(&acts).len(), 1);
    assert_eq!(transmit_targets(&acts), vec![3]);
}

#[test]
fn two_peers_discover_and_chat() {
    // Peer A binds a listener; peer B bootstraps toward it. Once discovery
    // has run in both directions, a line typed at A appears at B's output
    // tagged with A's identifier.
    let mut a = new_node(1);
    let mut b = new_node(2);
    let bind = a.step(NodeEvent::NewListenAddr(10), 0);
    assert!(matches!(bind[0], Action::ReportListenAddr(10)));

    let seen_by_a = a.step(NodeEvent::Advertisement(pid(2), 20), 1);
    assert!(matches!(seen_by_a[0], Action::LogDiscovered(PeerId { id: 2 })));
    let seen_by_b = b.step(NodeEvent::Advertisement(pid(1), 10), 1);
    assert!(matches!(seen_by_b[0], Action::LogDiscovered(PeerId { id: 1 })));

    let outgoing = a.step(NodeEvent::InputLine(b"hello from a".to_vec()), 2);
    assert_eq!(transmit_targets(&outgoing), vec![2]);
    let wire_msg = match outgoing.into_iter().next().unwrap() {
        Action::Transmit(s) => s.msg,
        other => panic!("expected a transmit, got {:?}", other),
    };

    let received = b.step(NodeEvent::Inbound(wire_msg), 3);
    let got = deliveries(&received);
    assert_eq!(got.len(), 1);
    assert_eq!(got[0].source.id, 1);
    assert_eq!(got[0].topic.name, "chat");
    assert_eq!(got[0].data, b"hello from a".to_vec());
}

#[test]
fn empty_payload_is_accepted_and_delivered_zero_length() {
    let mut a = new_node(1);
    let mut b = new_node(2);
    a.step(NodeEvent::Advertisement(pid(2), 20), 0);
    let outgoing = a.step(NodeEvent::InputLine(Vec::new()), 1);
    assert_eq!(outgoing.len(), 1);
    let wire_msg = match outgoing.into_iter().next().unwrap() {
        Action::Transmit(s) => s.msg,
        other => panic!("expected a transmit, got {:?}", other),
    };
    assert_eq!(wire_msg.data.len(), 0);
    let received = b.step(NodeEvent::Inbound(wire_msg), 2);
    let got = deliveries(&received);
    assert_eq!(got.len(), 1);
    assert_eq!(got[0].data.len(), 0);
}

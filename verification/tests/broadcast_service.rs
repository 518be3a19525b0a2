//! Tests for the broadcast service on its own: subscription handling, view
//! mutation edge cases, and publish fan-out.

use floodchat::broadcast::{BroadcastService, Topic};
use floodchat::peer::PeerId;

fn topic(name: &str) -> Topic {
    Topic::new(String::from(name))
}

#[test]
fn topics_compare_by_name() {
    assert!(topic("chat").same_as(&topic("chat")));
    assert!(!topic("chat").same_as(&topic("weather")));
}

#[test]
fn subscribe_is_idempotent() {
    let mut b = BroadcastService::new(PeerId::new(1));
    assert!(!b.is_subscribed(&topic("chat")));
    b.subscribe(topic("chat"));
    assert!(b.is_subscribed(&topic("chat")));
    b.subscribe(topic("chat"));
    assert!(b.is_subscribed(&topic("chat")));
    assert!(!b.is_subscribed(&topic("weather")));
}

#[test]
fn removing_an_absent_peer_is_a_no_op() {
    let mut b = BroadcastService::new(PeerId::new(1));
    b.on_peer_discovered(PeerId::new(2));
    b.on_peer_expired(PeerId::new(9));
    let sends = b.publish(&topic("chat"), &b"hi".to_vec());
    assert_eq!(sends.len(), 1);
    assert_eq!(sends[0].to.id, 2);
}

#[test]
fn publishing_an_unsubscribed_topic_is_permitted() {
    // A peer can originate traffic for topics it does not consume.
    let mut b = BroadcastService::new(PeerId::new(1));
    b.on_peer_discovered(PeerId::new(2));
    let sends = b.publish(&topic("weather"), &b"sunny".to_vec());
    assert_eq!(sends.len(), 1);
    assert_eq!(sends[0].msg.topic.name, "weather");
    assert_eq!(sends[0].msg.source.id, 1);
}

#[test]
fn duplicate_discovery_keeps_one_view_entry() {
    let mut b = BroadcastService::new(PeerId::new(1));
    b.on_peer_discovered(PeerId::new(2));
    b.on_peer_discovered(PeerId::new(2));
    let sends = b.publish(&topic("chat"), &b"x".to_vec());
    assert_eq!(sends.len(), 1);
}

#[test]
fn received_copy_preserves_payload_bytes() {
    let mut b = BroadcastService::new(PeerId::new(2));
    b.subscribe(topic("chat"));
    b.on_peer_discovered(PeerId::new(3));
    let msg = floodchat::broadcast::Message {
        source: PeerId::new(1),
        topic: topic("chat"),
        data: vec![0, 255, 7],
    };
    let (delivery, forwards) = b.on_message_received(msg);
    let delivered = delivery.expect("subscribed topic must be delivered");
    assert_eq!(delivered.data, vec![0, 255, 7]);
    assert_eq!(forwards.len(), 1);
    assert_eq!(forwards[0].to.id, 3);
    assert_eq!(forwards[0].msg.data, vec![0, 255, 7]);
    assert_eq!(forwards[0].msg.source.id, 1);
}

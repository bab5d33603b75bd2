//! Host parsing, connection plans, and the peer registry.

use mqtt_bridge::mqtt::connect_to_mqtt_host;
use mqtt_bridge::mqtt::parse_host_port;
use mqtt_bridge::mqtt::publish_message;
use mqtt_bridge::mqtt::BrokerRegistry;
use mqtt_bridge::websocket::PeerRegistry;

fn b(s: &str) -> Vec<u8> {
    s.as_bytes().to_vec()
}

#[test]
fn splits_host_and_port() {
    let (name, port) = parse_host_port(&b("127.0.0.1:1883")).expect("a valid host splits");
    assert_eq!(name, b("127.0.0.1"));
    assert_eq!(port, 1883);
    let (name, port) = parse_host_port(&b("localhost:0042")).expect("leading zeros are fine");
    assert_eq!(name, b("localhost"));
    assert_eq!(port, 42);
    // only the segment up to the next colon counts
    let (name, port) = parse_host_port(&b("host:1883:rest")).expect("extra segments are ignored");
    assert_eq!(name, b("host"));
    assert_eq!(port, 1883);
}

#[test]
fn rejects_hosts_without_a_usable_port() {
    assert!(parse_host_port(&b("localhost")).is_none());
    assert!(parse_host_port(&b("h:")).is_none());
    assert!(parse_host_port(&b("h:abc")).is_none());
    assert!(parse_host_port(&b("h:18x3")).is_none());
    assert!(parse_host_port(&b("h:65536")).is_none());
    assert!(parse_host_port(&b("h:99999999999999999999")).is_none());
}

#[test]
fn connect_plan_fixes_the_client_options() {
    let plan = connect_to_mqtt_host(&b("127.0.0.1:1883")).expect("a valid host yields a plan");
    assert_eq!(plan.host, b("127.0.0.1"));
    assert_eq!(plan.port, 1883);
    assert_eq!(plan.client_id.len(), 36);
    assert_eq!(plan.keep_alive_secs, 5);
    assert_eq!(plan.max_packet_size, 1024000000);
    assert_eq!(plan.channel_capacity, 10);
    assert_eq!(plan.subscribe_topic, b("#"));
    assert_eq!(plan.subscribe_qos, 0);
    assert!(connect_to_mqtt_host(&b("nonsense")).is_none());
    // two plans draw different client identifiers
    let other = connect_to_mqtt_host(&b("127.0.0.1:1883")).unwrap();
    assert_ne!(plan.client_id, other.client_id);
}

#[test]
fn publish_requires_a_known_broker() {
    let mut reg = BrokerRegistry::new();
    reg.insert_new(&b("h:1"));
    let req = publish_message(&reg, &b("h:1"), b("t"), b("p")).expect("known host");
    assert_eq!(req.host, b("h:1"));
    assert_eq!(req.qos, 1);
    assert!(!req.retain);
    assert!(publish_message(&reg, &b("x:1"), b("t"), b("p")).is_none());
}

#[test]
fn peer_registry_is_idempotent() {
    let mut peers = PeerRegistry::new();
    let addr = b("10.0.0.1:55555");
    assert!(peers.add_peer(&addr));
    assert!(!peers.add_peer(&addr));
    assert_eq!(peers.peers.len(), 1);
    assert_eq!(peers.find(&addr), Some(0));
    assert!(peers.remove_peer(&addr));
    // removal of a peer already gone is a quiet no-op
    assert!(!peers.remove_peer(&addr));
    assert!(peers.peers.is_empty());
}

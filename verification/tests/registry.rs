//! The broker registry: records, connection state, and the history bound.

use mqtt_bridge::mqtt::BrokerRegistry;

fn b(s: &str) -> Vec<u8> {
    s.as_bytes().to_vec()
}

#[test]
fn insert_find_and_remove() {
    let mut reg = BrokerRegistry::new();
    let host = b("localhost:1883");
    assert!(reg.find(&host).is_none());
    assert!(reg.insert_new(&host));
    assert!(!reg.insert_new(&host));
    assert_eq!(reg.find(&host), Some(0));
    assert_eq!(reg.brokers.len(), 1);
    assert_eq!(reg.brokers[0].broker, host);
    assert!(!reg.brokers[0].connected);
    assert!(reg.brokers[0].topics.is_empty());
    assert!(reg.remove(&host));
    assert!(!reg.remove(&host));
    assert!(reg.brokers.is_empty());
}

#[test]
fn set_connected_tracks_state() {
    let mut reg = BrokerRegistry::new();
    let host = b("h:1");
    reg.insert_new(&host);
    assert!(reg.set_connected(&host, true));
    assert!(reg.brokers[0].connected);
    assert!(reg.set_connected(&host, false));
    assert!(!reg.brokers[0].connected);
    assert!(!reg.set_connected(&b("absent:1"), true));
}

#[test]
fn history_keeps_the_newest_hundred() {
    let mut reg = BrokerRegistry::new();
    let host = b("h:1");
    let topic = b("t");
    reg.insert_new(&host);
    for i in 0..105u32 {
        let ts = format!("ts-{}", i).into_bytes();
        let payload = format!("p-{}", i).into_bytes();
        assert!(reg.record_publish(&host, &topic, payload, ts));
    }
    assert!(reg.brokers[0].connected);
    assert_eq!(reg.brokers[0].topics.len(), 1);
    let history = &reg.brokers[0].topics[0].messages;
    assert_eq!(history.len(), 100);
    // the oldest five were discarded; the newest survives at the end
    assert_eq!(history[0].payload, b("p-5"));
    assert_eq!(history[99].payload, b("p-104"));
    assert_eq!(history[99].timestamp, b("ts-104"));
}

#[test]
fn publishes_on_different_topics_keep_separate_histories() {
    let mut reg = BrokerRegistry::new();
    let host = b("h:1");
    reg.insert_new(&host);
    reg.record_publish(&host, &b("a"), b("1"), b("t1"));
    reg.record_publish(&host, &b("b"), b("2"), b("t2"));
    reg.record_publish(&host, &b("a"), b("3"), b("t3"));
    assert_eq!(reg.brokers[0].topics.len(), 2);
    assert_eq!(reg.brokers[0].topics[0].topic, b("a"));
    assert_eq!(reg.brokers[0].topics[0].messages.len(), 2);
    assert_eq!(reg.brokers[0].topics[1].topic, b("b"));
    assert_eq!(reg.brokers[0].topics[1].messages.len(), 1);
}

#[test]
fn publish_to_unknown_host_changes_nothing() {
    let mut reg = BrokerRegistry::new();
    assert!(!reg.record_publish(&b("nope:1"), &b("t"), b("p"), b("ts")));
    assert!(reg.brokers.is_empty());
}

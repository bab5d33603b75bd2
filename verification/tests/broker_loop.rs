//! The broker event loop step: fanout, the oversize rule, reconnection
//! handling, and the map-miss exit.

use mqtt_bridge::bridge::broker_step;
use mqtt_bridge::bridge::BridgeAction;
use mqtt_bridge::bridge::MqttEvent;
use mqtt_bridge::jsonrpc::serialize_json_rpc;
use mqtt_bridge::mqtt::effective_payload;
use mqtt_bridge::websocket::send_message_to_peers;
use mqtt_bridge::mqtt::BrokerRegistry;
use mqtt_bridge::PAYLOAD_LIMIT;

fn b(s: &str) -> Vec<u8> {
    s.as_bytes().to_vec()
}

fn fresh(host: &str) -> BrokerRegistry {
    let mut reg = BrokerRegistry::new();
    reg.insert_new(&b(host));
    reg
}

#[test]
fn publish_is_stored_and_fanned_out_once() {
    let mut reg = fresh("127.0.0.1:1883");
    let out = broker_step(
        &mut reg,
        &b("127.0.0.1:1883"),
        MqttEvent::IncomingPublish {
            topic: b("a/b"),
            payload: vec![1, 2, 3],
        },
        &b("2024-01-01T00:00:00+00:00"),
    );
    assert!(!out.exit);
    assert_eq!(out.actions.len(), 1);
    match &out.actions[0] {
        BridgeAction::Broadcast(n) => {
            assert_eq!(
                serialize_json_rpc(n),
                b("{\"jsonrpc\":\"2.0\",\"method\":\"mqtt_message\",\"params\":{\"source\":\"127.0.0.1:1883\",\"timestamp\":\"2024-01-01T00:00:00+00:00\",\"topic\":\"a/b\",\"payload\":[1,2,3]}}")
            );
        }
        _ => panic!("expected one fanout"),
    }
    assert!(reg.brokers[0].connected);
    assert_eq!(reg.brokers[0].topics[0].topic, b("a/b"));
    assert_eq!(reg.brokers[0].topics[0].messages[0].payload, vec![1, 2, 3]);
}

#[test]
fn oversized_payload_becomes_the_marker_everywhere() {
    let mut reg = fresh("h:1");
    let big = vec![0u8; PAYLOAD_LIMIT + 1];
    let marker = b("Payload size limit exceeded: 1000001.");
    assert_eq!(effective_payload(big.clone()), marker);
    let out = broker_step(
        &mut reg,
        &b("h:1"),
        MqttEvent::IncomingPublish {
            topic: b("t"),
            payload: big,
        },
        &b("ts"),
    );
    // the stored history entry carries the marker, not the raw bytes
    assert_eq!(reg.brokers[0].topics[0].messages[0].payload, marker);
    match &out.actions[0] {
        BridgeAction::Broadcast(n) => {
            // the fanout carries the marker bytes, not the raw payload
            let expected = send_message_to_peers(&b("h:1"), &b("t"), &marker, &b("ts"));
            assert_eq!(serialize_json_rpc(n), serialize_json_rpc(&expected));
            let wire = String::from_utf8(serialize_json_rpc(n)).unwrap();
            assert!(!wire.contains("[0,0"));
        }
        _ => panic!("expected one fanout"),
    }
}

#[test]
fn payload_at_the_limit_is_kept_verbatim() {
    let exact = vec![7u8; PAYLOAD_LIMIT];
    assert_eq!(effective_payload(exact.clone()), exact);
}

#[test]
fn connack_marks_connected_and_notifies() {
    let mut reg = fresh("h:1");
    let out = broker_step(&mut reg, &b("h:1"), MqttEvent::ConnAck, &b("ts"));
    assert!(!out.exit);
    assert!(reg.brokers[0].connected);
    match &out.actions[0] {
        BridgeAction::Broadcast(n) => assert_eq!(
            serialize_json_rpc(n),
            b("{\"jsonrpc\":\"2.0\",\"method\":\"mqtt_connection_status\",\"params\":{\"source\":\"h:1\",\"connected\":true}}")
        ),
        _ => panic!("expected a status fanout"),
    }
}

#[test]
fn transport_error_disconnects_notifies_and_retries() {
    let mut reg = fresh("h:1");
    reg.set_connected(&b("h:1"), true);
    let out = broker_step(&mut reg, &b("h:1"), MqttEvent::TransportError, &b("ts"));
    assert!(!out.exit);
    assert!(!reg.brokers[0].connected);
    assert_eq!(out.actions.len(), 2);
    assert!(matches!(out.actions[1], BridgeAction::RetryDelay));
    match &out.actions[0] {
        BridgeAction::Broadcast(n) => {
            let wire = String::from_utf8(serialize_json_rpc(n)).unwrap();
            assert!(wire.contains("\"connected\":false"));
        }
        _ => panic!("expected a status fanout"),
    }
}

#[test]
fn fatal_state_error_stops_the_loop_quietly() {
    let mut reg = fresh("h:1");
    let out = broker_step(&mut reg, &b("h:1"), MqttEvent::FatalStateError, &b("ts"));
    assert!(out.exit);
    assert!(out.actions.is_empty());
    // the record is left in place
    assert_eq!(reg.brokers.len(), 1);
}

#[test]
fn map_miss_exits_without_any_effect() {
    let mut reg = fresh("other:1");
    let out = broker_step(
        &mut reg,
        &b("gone:1"),
        MqttEvent::IncomingPublish {
            topic: b("t"),
            payload: vec![1],
        },
        &b("ts"),
    );
    assert!(out.exit);
    assert!(out.actions.is_empty());
    assert!(reg.brokers[0].topics.is_empty());
}

#[test]
fn payload_limit_error_fans_out_on_the_error_topic() {
    let mut reg = fresh("h:1");
    let out = broker_step(
        &mut reg,
        &b("h:1"),
        MqttEvent::PayloadLimitError { size: 2000000 },
        &b("ts"),
    );
    assert!(!out.exit);
    match &out.actions[0] {
        BridgeAction::Broadcast(n) => {
            let wire = String::from_utf8(serialize_json_rpc(n)).unwrap();
            assert!(wire.contains("\"topic\":\"$ERROR\""));
            let expected = send_message_to_peers(
                &b("h:1"),
                &b("$ERROR"),
                &b("Payload size limit exceeded: 2000000."),
                &b("ts"),
            );
            assert_eq!(serialize_json_rpc(n), serialize_json_rpc(&expected));
        }
        _ => panic!("expected one fanout"),
    }
    // nothing is stored for the synthetic topic
    assert!(reg.brokers[0].topics.is_empty());
}

#[test]
fn stamped_step_records_a_clock_reading() {
    let mut reg = fresh("h:1");
    let out = mqtt_bridge::bridge::broker_step_now(
        &mut reg,
        &b("h:1"),
        MqttEvent::IncomingPublish {
            topic: b("t"),
            payload: vec![9],
        },
    );
    assert!(!out.exit);
    assert_eq!(out.actions.len(), 1);
    let ts = &reg.brokers[0].topics[0].messages[0].timestamp;
    // an RFC 3339 text has a date, a separator and an offset
    assert!(ts.len() >= 20);
    assert!(ts.contains(&b'T'));
}

#[test]
fn disconnect_and_other_events_are_quiet() {
    let mut reg = fresh("h:1");
    let out = broker_step(&mut reg, &b("h:1"), MqttEvent::Disconnect, &b("ts"));
    assert!(!out.exit);
    assert!(out.actions.is_empty());
    let out = broker_step(&mut reg, &b("h:1"), MqttEvent::OtherEvent, &b("ts"));
    assert!(!out.exit);
    assert!(out.actions.is_empty());
}

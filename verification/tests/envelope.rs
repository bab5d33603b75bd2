//! The peer-wire envelope: serialization and the decode round trip.

use mqtt_bridge::config::{CommandMessage, PipelineEntry, PipelineMessage};
use mqtt_bridge::json::JsonValue;
use mqtt_bridge::jsonrpc::deserialize_json_rpc;
use mqtt_bridge::jsonrpc::notification;
use mqtt_bridge::jsonrpc::serialize_json_rpc;
use mqtt_bridge::mqtt::BrokerRegistry;
use mqtt_bridge::websocket::{
    send_broker_status_to_peers, send_brokers, send_commands, send_message_to_peers,
    send_pipelines,
};

fn b(s: &str) -> Vec<u8> {
    s.as_bytes().to_vec()
}

#[test]
fn notification_carries_the_protocol_version() {
    let n = notification(b("mqtt_brokers"), JsonValue::Arr(vec![]));
    assert_eq!(n.jsonrpc, b("2.0"));
    assert_eq!(n.method, b("mqtt_brokers"));
    assert_eq!(
        serialize_json_rpc(&n),
        b("{\"jsonrpc\":\"2.0\",\"method\":\"mqtt_brokers\",\"params\":[]}")
    );
}

#[test]
fn envelope_round_trips() {
    let n = notification(
        b("mqtt_message"),
        JsonValue::Obj(vec![
            (b("topic"), JsonValue::Str(b("a/b"))),
            (b("payload"), JsonValue::Arr(vec![
                JsonValue::Int(1),
                JsonValue::Int(2),
                JsonValue::Int(3),
            ])),
        ]),
    );
    let text = serialize_json_rpc(&n);
    let back = deserialize_json_rpc(&text).expect("a serialized envelope decodes");
    assert_eq!(back.jsonrpc, n.jsonrpc);
    assert_eq!(back.method, n.method);
    assert_eq!(serialize_json_rpc(&back), text);
}

#[test]
fn fields_may_come_in_any_order() {
    let text = b("{\"params\":{},\"jsonrpc\":\"2.0\",\"method\":\"connect\"}");
    let env = deserialize_json_rpc(&text).expect("field order does not matter");
    assert_eq!(env.method, b("connect"));
}

#[test]
fn every_fanout_notification_round_trips() {
    let mut reg = BrokerRegistry::new();
    reg.insert_new(&b("h:1"));
    reg.record_publish(&b("h:1"), &b("a/b"), vec![0, 127, 255], b("ts"));
    let commands = vec![CommandMessage {
        name: b("n"),
        topic: b("t"),
        payload: b("p"),
    }];
    let pipelines = vec![PipelineMessage {
        name: b("pl"),
        pipeline: vec![PipelineEntry { topic: b("x") }],
    }];
    let notes = vec![
        send_brokers(&reg),
        send_message_to_peers(&b("h:1"), &b("a/b"), &vec![1, 2], &b("ts")),
        send_broker_status_to_peers(&b("h:1"), false),
        send_commands(&commands),
        send_pipelines(&pipelines),
        notification(b("broker_removal"), JsonValue::Str(b("h:1"))),
    ];
    for note in notes {
        let text = serialize_json_rpc(&note);
        let back = deserialize_json_rpc(&text).expect("every fanout decodes");
        assert_eq!(serialize_json_rpc(&back), text);
        assert_eq!(back.method, note.method);
    }
}

#[test]
fn missing_fields_are_rejected() {
    assert!(deserialize_json_rpc(&b("{\"jsonrpc\":\"2.0\",\"method\":\"x\"}")).is_err());
    assert!(deserialize_json_rpc(&b("{\"method\":\"x\",\"params\":1}")).is_err());
    assert!(deserialize_json_rpc(&b("[1,2,3]")).is_err());
    assert!(deserialize_json_rpc(&b("not json at all")).is_err());
}

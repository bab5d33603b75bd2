//! The request dispatcher, driven end to end over the wire text, and the
//! priming a fresh peer receives.

use mqtt_bridge::bridge::deserialize_json_rpc_and_process;
use mqtt_bridge::bridge::BridgeAction;
use mqtt_bridge::config::get_known_brokers;
use mqtt_bridge::config::remove_from_brokers;
use mqtt_bridge::config::add_to_brokers;
use mqtt_bridge::jsonrpc::serialize_json_rpc;
use mqtt_bridge::mqtt::BrokerRegistry;
use mqtt_bridge::websocket::prime_peer;

fn b(s: &str) -> Vec<u8> {
    s.as_bytes().to_vec()
}

#[test]
fn fresh_peer_gets_three_priming_notifications_in_order() {
    let reg = BrokerRegistry::new();
    let primer = prime_peer(&reg, &Vec::new(), &Vec::new());
    assert_eq!(primer.len(), 3);
    assert_eq!(
        serialize_json_rpc(&primer[0]),
        b("{\"jsonrpc\":\"2.0\",\"method\":\"mqtt_brokers\",\"params\":[]}")
    );
    assert_eq!(
        serialize_json_rpc(&primer[1]),
        b("{\"jsonrpc\":\"2.0\",\"method\":\"commands\",\"params\":[]}")
    );
    assert_eq!(
        serialize_json_rpc(&primer[2]),
        b("{\"jsonrpc\":\"2.0\",\"method\":\"pipelines\",\"params\":[]}")
    );
}

#[test]
fn connect_spawns_persists_and_broadcasts() {
    let mut reg = BrokerRegistry::new();
    let text = b("{\"jsonrpc\":\"2.0\",\"method\":\"connect\",\"params\":{\"hostname\":\"127.0.0.1:1883\"}}");
    let actions = deserialize_json_rpc_and_process(&text, &mut reg);
    assert_eq!(actions.len(), 3);
    assert!(matches!(&actions[0], BridgeAction::SpawnConnect(h) if *h == b("127.0.0.1:1883")));
    assert!(
        matches!(&actions[1], BridgeAction::PersistAddBroker(h) if *h == b("127.0.0.1:1883"))
    );
    match &actions[2] {
        BridgeAction::Broadcast(n) => assert_eq!(n.method, b("mqtt_brokers")),
        _ => panic!("expected the broker list broadcast"),
    }
    // the file grows through the persistence action
    let content = add_to_brokers(&b("[]"), &b("127.0.0.1:1883"));
    assert_eq!(content, b("[\"127.0.0.1:1883\"]"));
}

#[test]
fn remove_notifies_removal_then_fresh_broker_list() {
    let mut reg = BrokerRegistry::new();
    reg.insert_new(&b("127.0.0.1:1883"));
    let text = b("{\"jsonrpc\":\"2.0\",\"method\":\"remove\",\"params\":{\"hostname\":\"127.0.0.1:1883\"}}");
    let actions = deserialize_json_rpc_and_process(&text, &mut reg);
    assert!(reg.brokers.is_empty());
    assert_eq!(actions.len(), 4);
    assert!(
        matches!(&actions[0], BridgeAction::DisconnectClient(h) if *h == b("127.0.0.1:1883"))
    );
    match &actions[1] {
        BridgeAction::Broadcast(n) => assert_eq!(
            serialize_json_rpc(n),
            b("{\"jsonrpc\":\"2.0\",\"method\":\"broker_removal\",\"params\":\"127.0.0.1:1883\"}")
        ),
        _ => panic!("expected the removal notification"),
    }
    assert!(
        matches!(&actions[2], BridgeAction::PersistRemoveBroker(h) if *h == b("127.0.0.1:1883"))
    );
    match &actions[3] {
        BridgeAction::Broadcast(n) => assert_eq!(
            serialize_json_rpc(n),
            b("{\"jsonrpc\":\"2.0\",\"method\":\"mqtt_brokers\",\"params\":[]}")
        ),
        _ => panic!("expected the refreshed broker list"),
    }
    // and brokers.json becomes the empty array again
    let content = remove_from_brokers(&b("[\"127.0.0.1:1883\"]"), &b("127.0.0.1:1883"));
    assert_eq!(content, b("[]"));
    assert!(get_known_brokers(&content).is_empty());
}

#[test]
fn remove_of_unknown_host_still_rewrites_and_broadcasts() {
    let mut reg = BrokerRegistry::new();
    let text = b("{\"jsonrpc\":\"2.0\",\"method\":\"remove\",\"params\":{\"hostname\":\"x:1\"}}");
    let actions = deserialize_json_rpc_and_process(&text, &mut reg);
    assert_eq!(actions.len(), 2);
    assert!(matches!(&actions[0], BridgeAction::PersistRemoveBroker(h) if *h == b("x:1")));
    assert!(matches!(&actions[1], BridgeAction::Broadcast(_)));
}

#[test]
fn publish_reaches_a_known_broker_only() {
    let mut reg = BrokerRegistry::new();
    reg.insert_new(&b("127.0.0.1:1883"));
    let text = b("{\"jsonrpc\":\"2.0\",\"method\":\"publish\",\"params\":{\"host\":\"127.0.0.1:1883\",\"topic\":\"t\",\"payload\":\"p\"}}");
    let actions = deserialize_json_rpc_and_process(&text, &mut reg);
    assert_eq!(actions.len(), 1);
    match &actions[0] {
        BridgeAction::Publish(req) => {
            assert_eq!(req.host, b("127.0.0.1:1883"));
            assert_eq!(req.topic, b("t"));
            assert_eq!(req.payload, b("p"));
            assert_eq!(req.qos, 1);
            assert!(!req.retain);
        }
        _ => panic!("expected a publish"),
    }
    // an unknown host is dropped
    let text = b("{\"jsonrpc\":\"2.0\",\"method\":\"publish\",\"params\":{\"host\":\"gone:1\",\"topic\":\"t\",\"payload\":\"p\"}}");
    let actions = deserialize_json_rpc_and_process(&text, &mut reg);
    assert!(actions.is_empty());
}

#[test]
fn save_command_writes_the_file_and_rebroadcasts() {
    let mut reg = BrokerRegistry::new();
    let text = b("{\"jsonrpc\":\"2.0\",\"method\":\"save_command\",\"params\":{\"name\":\"hi\",\"topic\":\"t\",\"payload\":\"p\"}}");
    let actions = deserialize_json_rpc_and_process(&text, &mut reg);
    assert_eq!(actions.len(), 2);
    match &actions[0] {
        BridgeAction::PersistSaveCommand(name, content) => {
            assert_eq!(*name, b("hi"));
            assert_eq!(
                *content,
                b("{\"name\":\"hi\",\"topic\":\"t\",\"payload\":\"p\"}")
            );
        }
        _ => panic!("expected the file write"),
    }
    assert!(matches!(actions[1], BridgeAction::BroadcastCommands));
}

#[test]
fn malformed_save_command_still_rebroadcasts() {
    let mut reg = BrokerRegistry::new();
    let text =
        b("{\"jsonrpc\":\"2.0\",\"method\":\"save_command\",\"params\":{\"name\":\"hi\"}}");
    let actions = deserialize_json_rpc_and_process(&text, &mut reg);
    assert_eq!(actions.len(), 1);
    assert!(matches!(actions[0], BridgeAction::BroadcastCommands));
}

#[test]
fn remove_command_names_the_file_to_delete() {
    let mut reg = BrokerRegistry::new();
    let text =
        b("{\"jsonrpc\":\"2.0\",\"method\":\"remove_command\",\"params\":{\"name\":\"hi\"}}");
    let actions = deserialize_json_rpc_and_process(&text, &mut reg);
    assert_eq!(actions.len(), 2);
    assert!(matches!(&actions[0], BridgeAction::PersistRemoveCommand(n) if *n == b("hi")));
    assert!(matches!(actions[1], BridgeAction::BroadcastCommands));
}

#[test]
fn save_pipeline_writes_the_file_and_rebroadcasts() {
    let mut reg = BrokerRegistry::new();
    let text = b("{\"jsonrpc\":\"2.0\",\"method\":\"save_pipeline\",\"params\":{\"name\":\"new_pipeline\",\"pipeline\":[{\"topic\":\"test\"}]}}");
    let actions = deserialize_json_rpc_and_process(&text, &mut reg);
    assert_eq!(actions.len(), 2);
    match &actions[0] {
        BridgeAction::PersistSavePipeline(name, content) => {
            assert_eq!(*name, b("new_pipeline"));
            assert_eq!(
                *content,
                b("{\"name\":\"new_pipeline\",\"pipeline\":[{\"topic\":\"test\"}]}")
            );
        }
        _ => panic!("expected the file write"),
    }
    assert!(matches!(actions[1], BridgeAction::BroadcastPipelines));
}

#[test]
fn pipeline_with_a_wrong_key_is_not_written() {
    let mut reg = BrokerRegistry::new();
    let text = b("{\"jsonrpc\":\"2.0\",\"method\":\"save_pipeline\",\"params\":{\"name\":\"failure_mode\",\"pipeline\":[{\"wrong_key\":\"test\"}]}}");
    let actions = deserialize_json_rpc_and_process(&text, &mut reg);
    assert_eq!(actions.len(), 1);
    assert!(matches!(actions[0], BridgeAction::BroadcastPipelines));
}

#[test]
fn unknown_methods_and_bad_frames_are_ignored() {
    let mut reg = BrokerRegistry::new();
    let text = b("{\"jsonrpc\":\"2.0\",\"method\":\"reboot\",\"params\":{}}");
    assert!(deserialize_json_rpc_and_process(&text, &mut reg).is_empty());
    assert!(deserialize_json_rpc_and_process(&b("garbage"), &mut reg).is_empty());
    assert!(reg.brokers.is_empty());
}

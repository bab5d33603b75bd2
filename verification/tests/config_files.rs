//! The persisted configuration: broker list contents, command and pipeline
//! files, and their round trips.

use mqtt_bridge::config::add_to_brokers;
use mqtt_bridge::config::get_known_brokers;
use mqtt_bridge::config::json_file_name;
use mqtt_bridge::config::load_command;
use mqtt_bridge::config::load_pipeline;
use mqtt_bridge::config::remove_from_brokers;
use mqtt_bridge::config::command_value;
use mqtt_bridge::config::pipeline_value;
use mqtt_bridge::config::CommandMessage;
use mqtt_bridge::config::PipelineEntry;
use mqtt_bridge::config::PipelineMessage;
use mqtt_bridge::json::encode_value;
use mqtt_bridge::bridge::connect_to_known_brokers;

fn b(s: &str) -> Vec<u8> {
    s.as_bytes().to_vec()
}

#[test]
fn reads_the_saved_broker_list() {
    let content = b("[\"localhost:1883\",\"127.0.0.1:1234\"]");
    let brokers = get_known_brokers(&content);
    assert_eq!(brokers.len(), 2);
    assert_eq!(brokers[0], b("localhost:1883"));
    assert_eq!(brokers[1], b("127.0.0.1:1234"));
    assert_eq!(connect_to_known_brokers(&content), brokers);
}

#[test]
fn unreadable_broker_lists_count_as_empty() {
    assert!(get_known_brokers(&b("")).is_empty());
    assert!(get_known_brokers(&b("not json")).is_empty());
    assert!(get_known_brokers(&b("{\"a\":1}")).is_empty());
    assert!(get_known_brokers(&b("[1,2]")).is_empty());
}

#[test]
fn adding_a_broker_appends_exactly_one_entry() {
    let before = b("[\"localhost:1883\"]");
    let count_before = get_known_brokers(&before)
        .iter()
        .filter(|h| **h == b("test.mosquitto.org:1883"))
        .count();
    let after = add_to_brokers(&before, &b("test.mosquitto.org:1883"));
    let brokers = get_known_brokers(&after);
    assert_eq!(brokers.len(), 2);
    assert_eq!(brokers[1], b("test.mosquitto.org:1883"));
    let count_after = brokers
        .iter()
        .filter(|h| **h == b("test.mosquitto.org:1883"))
        .count();
    assert_eq!(count_after, count_before + 1);
}

#[test]
fn adding_to_missing_contents_starts_a_fresh_list() {
    let after = add_to_brokers(&b(""), &b("test.mosquitto.org:1883"));
    assert_eq!(after, b("[\"test.mosquitto.org:1883\"]"));
}

#[test]
fn removing_a_broker_restores_the_count() {
    let start = b("[]");
    let one = add_to_brokers(&start, &b("h:1"));
    let two = add_to_brokers(&one, &b("h:1"));
    assert_eq!(get_known_brokers(&two).len(), 2);
    let back = remove_from_brokers(&two, &b("h:1"));
    assert_eq!(get_known_brokers(&back).len(), 1);
    let gone = remove_from_brokers(&back, &b("h:1"));
    assert_eq!(get_known_brokers(&gone).len(), 0);
}

#[test]
fn removing_an_absent_broker_changes_nothing() {
    let content = b("[\"localhost:1883\"]");
    let after = remove_from_brokers(&content, &b("does_not_exist:1883"));
    assert_eq!(after, content);
}

#[test]
fn command_files_round_trip() {
    let cmd = CommandMessage {
        name: b("first_command"),
        topic: b("test"),
        payload: b("I am a test"),
    };
    let content = encode_value(&command_value(&cmd));
    assert_eq!(
        content,
        b("{\"name\":\"first_command\",\"topic\":\"test\",\"payload\":\"I am a test\"}")
    );
    let back = load_command(&content).expect("a written command reads back");
    assert_eq!(back.name, b("first_command"));
    assert_eq!(back.topic, b("test"));
    assert_eq!(back.payload, b("I am a test"));
    assert!(load_command(&b("{\"name\":\"x\"}")).is_none());
    assert!(load_command(&b("broken")).is_none());
}

#[test]
fn pipeline_files_round_trip() {
    let pipe = PipelineMessage {
        name: b("new_pipeline"),
        pipeline: vec![PipelineEntry { topic: b("test") }, PipelineEntry { topic: b("more") }],
    };
    let content = encode_value(&pipeline_value(&pipe));
    assert_eq!(
        content,
        b("{\"name\":\"new_pipeline\",\"pipeline\":[{\"topic\":\"test\"},{\"topic\":\"more\"}]}")
    );
    let back = load_pipeline(&content).expect("a written pipeline reads back");
    assert_eq!(back.name, b("new_pipeline"));
    assert_eq!(back.pipeline.len(), 2);
    assert_eq!(back.pipeline[0].topic, b("test"));
    assert_eq!(back.pipeline[1].topic, b("more"));
    assert!(load_pipeline(&b("{\"name\":\"x\",\"pipeline\":[{\"wrong\":\"y\"}]}")).is_none());
}

#[test]
fn file_names_carry_the_json_suffix() {
    assert_eq!(json_file_name(&b("hi")), b("hi.json"));
    assert_eq!(json_file_name(&b("")), b(".json"));
}

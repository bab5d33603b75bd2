//! The bridge's decision core: the per-broker event loop step and the peer
//! request dispatcher.
//!
//! Both are pure state transformers over the broker registry. They consume
//! one event or one inbound frame and produce the exact list of actions the
//! surrounding workers must perform: envelopes to fan out to every peer,
//! connections to open or close, publishes to send, and files to rewrite.
//! The map-miss rule stands here: an event for a host that is no longer in
//! the registry makes its loop exit without touching any state.

use vstd::prelude::*;

use crate::config::add_to_commands;
use crate::config::add_to_pipelines;
use crate::config::command_json;
use crate::config::get_known_brokers;
use crate::config::name_of_params;
use crate::config::parse_command;
use crate::config::parse_pipeline;
use crate::config::pipeline_json;
use crate::config::broker_list_json;
use crate::json::ascii_bytes;
use crate::json::eq_bytes;
use crate::json::find_str_key;
use crate::json::get_str_field;
use crate::json::jdepth;
use crate::json::ser_json;
use crate::json::str_bytes;
use crate::json::JsonData;
use crate::json::JsonValue;
use crate::json::JSON_DEPTH_LIMIT;
use crate::jsonrpc::deserialize_json_rpc;
use crate::jsonrpc::notification;
use crate::jsonrpc::ser_env;
use crate::jsonrpc::JsonRpcData;
use crate::jsonrpc::JsonRpcNotification;
use crate::mqtt::apply_publish;
use crate::mqtt::broker_index;
use crate::mqtt::has_broker;
use crate::mqtt::marker_bytes;
use crate::mqtt::now_rfc3339;
use crate::mqtt::stored_payload;
use crate::mqtt::wf_registry;
use crate::mqtt::BrokerRegistry;
use crate::mqtt::MqttBrokerData;
use crate::mqtt::PublishRequest;
use crate::mqtt::PublishRequestData;
use crate::websocket::brokers_note;
use crate::websocket::mqtt_message_note;
use crate::websocket::send_broker_status_to_peers;
use crate::websocket::send_brokers;
use crate::websocket::send_message_to_peers;
use crate::websocket::status_note;

verus! {

/// One event observed on a broker connection, as the loop sees it: the
/// incoming packets it reacts to, and the error classes it tells apart.
pub enum MqttEvent {
    IncomingPublish { topic: Vec<u8>, payload: Vec<u8> },
    ConnAck,
    Disconnect,
    OtherEvent,
    PayloadLimitError { size: u64 },
    FatalStateError,
    TransportError,
}

pub enum MqttEventData {
    IncomingPublish { topic: Seq<u8>, payload: Seq<u8> },
    ConnAck,
    Disconnect,
    OtherEvent,
    PayloadLimitError { size: u64 },
    FatalStateError,
    TransportError,
}

impl View for MqttEvent {
    type V = MqttEventData;

    open spec fn view(&self) -> MqttEventData {
        match self {
            MqttEvent::IncomingPublish { topic, payload } => MqttEventData::IncomingPublish {
                topic: topic@,
                payload: payload@,
            },
            MqttEvent::ConnAck => MqttEventData::ConnAck,
            MqttEvent::Disconnect => MqttEventData::Disconnect,
            MqttEvent::OtherEvent => MqttEventData::OtherEvent,
            MqttEvent::PayloadLimitError { size } => MqttEventData::PayloadLimitError {
                size: *size,
            },
            MqttEvent::FatalStateError => MqttEventData::FatalStateError,
            MqttEvent::TransportError => MqttEventData::TransportError,
        }
    }
}

/// One thing the surrounding workers must do, in order.
pub enum BridgeAction {
    /// Send this envelope to every peer sink.
    Broadcast(JsonRpcNotification),
    /// Spawn a connect worker for this host.
    SpawnConnect(Vec<u8>),
    /// Append this host to `brokers.json`.
    PersistAddBroker(Vec<u8>),
    /// Drop this host from `brokers.json`.
    PersistRemoveBroker(Vec<u8>),
    /// Disconnect this host's network client.
    DisconnectClient(Vec<u8>),
    /// Publish on this host's network client.
    Publish(PublishRequest),
    /// Write these bytes under `commands/<name>.json`.
    PersistSaveCommand(Vec<u8>, Vec<u8>),
    /// Delete `commands/<name>.json`.
    PersistRemoveCommand(Vec<u8>),
    /// Write these bytes under `pipelines/<name>.json`.
    PersistSavePipeline(Vec<u8>, Vec<u8>),
    /// Delete `pipelines/<name>.json`.
    PersistRemovePipeline(Vec<u8>),
    /// Re-read the saved commands and send them to every peer.
    BroadcastCommands,
    /// Re-read the saved pipelines and send them to every peer.
    BroadcastPipelines,
    /// Wait five seconds before the next event, giving the client time to
    /// reconnect.
    RetryDelay,
}

pub enum ActionData {
    Broadcast(JsonRpcData),
    SpawnConnect(Seq<u8>),
    PersistAddBroker(Seq<u8>),
    PersistRemoveBroker(Seq<u8>),
    DisconnectClient(Seq<u8>),
    Publish(PublishRequestData),
    PersistSaveCommand(Seq<u8>, Seq<u8>),
    PersistRemoveCommand(Seq<u8>),
    PersistSavePipeline(Seq<u8>, Seq<u8>),
    PersistRemovePipeline(Seq<u8>),
    BroadcastCommands,
    BroadcastPipelines,
    RetryDelay,
}

impl View for BridgeAction {
    type V = ActionData;

    open spec fn view(&self) -> ActionData {
        match self {
            BridgeAction::Broadcast(n) => ActionData::Broadcast(n@),
            BridgeAction::SpawnConnect(h) => ActionData::SpawnConnect(h@),
            BridgeAction::PersistAddBroker(h) => ActionData::PersistAddBroker(h@),
            BridgeAction::PersistRemoveBroker(h) => ActionData::PersistRemoveBroker(h@),
            BridgeAction::DisconnectClient(h) => ActionData::DisconnectClient(h@),
            BridgeAction::Publish(p) => ActionData::Publish(p@),
            BridgeAction::PersistSaveCommand(n, c) => ActionData::PersistSaveCommand(n@, c@),
            BridgeAction::PersistRemoveCommand(n) => ActionData::PersistRemoveCommand(n@),
            BridgeAction::PersistSavePipeline(n, c) => ActionData::PersistSavePipeline(n@, c@),
            BridgeAction::PersistRemovePipeline(n) => ActionData::PersistRemovePipeline(n@),
            BridgeAction::BroadcastCommands => ActionData::BroadcastCommands,
            BridgeAction::BroadcastPipelines => ActionData::BroadcastPipelines,
            BridgeAction::RetryDelay => ActionData::RetryDelay,
        }
    }
}

/// The deep view of an action list.
pub open spec fn actions_view(a: Seq<BridgeAction>) -> Seq<ActionData> {
    Seq::new(a.len(), |i: int| a[i]@)
}

/// What one broker loop step does and leaves behind.
pub struct BrokerStepOutcome {
    pub actions: Vec<BridgeAction>,
    pub exit: bool,
}

/// The `broker_removal` notification carrying the removed host string.
pub open spec fn broker_removal_note(host: Seq<u8>) -> JsonRpcData {
    JsonRpcData {
        jsonrpc: ascii_bytes("2.0"@),
        method: ascii_bytes("broker_removal"@),
        params: JsonData::Str(host),
    }
}

/// The registry and the fanout after one broker event for `host`: what
/// `broker_step` must compute. The first component is the new registry, the
/// second the actions, the third whether the loop exits.
pub open spec fn step_result(
    reg: Seq<MqttBrokerData>,
    host: Seq<u8>,
    ev: MqttEventData,
    ts: Seq<u8>,
) -> (Seq<MqttBrokerData>, Seq<ActionData>, bool) {
    if !has_broker(reg, host) {
        // the record is gone: the owning loop exits without another effect
        (reg, Seq::empty(), true)
    } else {
        let bi = broker_index(reg, host);
        match ev {
            MqttEventData::IncomingPublish { topic, payload } => {
                let stored = stored_payload(payload);
                (
                    reg.update(
                        bi,
                        apply_publish(
                            reg[bi],
                            topic,
                            crate::mqtt::MqttMessageData { timestamp: ts, payload: stored },
                        ),
                    ),
                    seq![ActionData::Broadcast(mqtt_message_note(host, ts, topic, stored))],
                    false,
                )
            },
            MqttEventData::ConnAck => (
                reg.update(
                    bi,
                    MqttBrokerData { broker: reg[bi].broker, connected: true, topics: reg[bi].topics },
                ),
                seq![ActionData::Broadcast(status_note(host, true))],
                false,
            ),
            MqttEventData::Disconnect => (reg, Seq::empty(), false),
            MqttEventData::OtherEvent => (reg, Seq::empty(), false),
            MqttEventData::PayloadLimitError { size } => (
                reg,
                seq![
                    ActionData::Broadcast(
                        mqtt_message_note(
                            host,
                            ts,
                            ascii_bytes("$ERROR"@),
                            marker_bytes(size as nat),
                        ),
                    ),
                ],
                false,
            ),
            MqttEventData::FatalStateError => (reg, Seq::empty(), true),
            MqttEventData::TransportError => (
                reg.update(
                    bi,
                    MqttBrokerData {
                        broker: reg[bi].broker,
                        connected: false,
                        topics: reg[bi].topics,
                    },
                ),
                seq![ActionData::Broadcast(status_note(host, false)), ActionData::RetryDelay],
                false,
            ),
        }
    }
}

/// Handles one event of the loop owning `host`, against the registry: the
/// oversize rule is applied, the history grows under its bound, connection
/// state is tracked, and every peer gets the matching fanout. An event for
/// a host that is no longer in the registry only makes the loop exit.
pub fn broker_step(
    reg: &mut BrokerRegistry,
    host: &Vec<u8>,
    event: MqttEvent,
    timestamp: &Vec<u8>,
) -> (r: BrokerStepOutcome)
    requires
        wf_registry(old(reg)@),
    ensures
        wf_registry(final(reg)@),
        (final(reg)@, actions_view(r.actions@), r.exit) == step_result(
            old(reg)@,
            host@,
            event@,
            timestamp@,
        ),
{
    let mut actions: Vec<BridgeAction> = Vec::new();
    let present = match reg.find(host) {
        Some(_) => true,
        None => false,
    };
    if !present {
        proof {
            assert(actions_view(actions@) =~= Seq::<ActionData>::empty());
        }
        return BrokerStepOutcome { actions, exit: true };
    }
    match event {
        MqttEvent::IncomingPublish { topic, payload } => {
            let stored = crate::mqtt::effective_payload(payload);
            let note = send_message_to_peers(host, &topic, &stored, timestamp);
            let ts = timestamp.clone();
            proof {
                assert(ts@ =~= timestamp@);
            }
            reg.record_publish(host, &topic, stored, ts);
            actions.push(BridgeAction::Broadcast(note));
            proof {
                assert(actions_view(actions@) =~= step_result(
                    old(reg)@,
                    host@,
                    event@,
                    timestamp@,
                ).1);
            }
            BrokerStepOutcome { actions, exit: false }
        },
        MqttEvent::ConnAck => {
            reg.set_connected(host, true);
            actions.push(BridgeAction::Broadcast(send_broker_status_to_peers(host, true)));
            proof {
                assert(actions_view(actions@) =~= step_result(
                    old(reg)@,
                    host@,
                    event@,
                    timestamp@,
                ).1);
            }
            BrokerStepOutcome { actions, exit: false }
        },
        MqttEvent::Disconnect => {
            proof {
                assert(actions_view(actions@) =~= Seq::<ActionData>::empty());
            }
            BrokerStepOutcome { actions, exit: false }
        },
        MqttEvent::OtherEvent => {
            proof {
                assert(actions_view(actions@) =~= Seq::<ActionData>::empty());
            }
            BrokerStepOutcome { actions, exit: false }
        },
        MqttEvent::PayloadLimitError { size } => {
            proof {
                reveal_strlit("$ERROR");
                reveal_strlit("Payload size limit exceeded: ");
                reveal_strlit(".");
            }
            let mut marker = str_bytes("Payload size limit exceeded: ");
            crate::json::encode_u64(size, &mut marker);
            marker.push(46);
            proof {
                assert(marker@ =~= marker_bytes(size as nat));
            }
            let err_topic = str_bytes("$ERROR");
            let note = send_message_to_peers(host, &err_topic, &marker, timestamp);
            actions.push(BridgeAction::Broadcast(note));
            proof {
                assert(actions_view(actions@) =~= step_result(
                    old(reg)@,
                    host@,
                    event@,
                    timestamp@,
                ).1);
            }
            BrokerStepOutcome { actions, exit: false }
        },
        MqttEvent::FatalStateError => {
            proof {
                assert(actions_view(actions@) =~= Seq::<ActionData>::empty());
            }
            BrokerStepOutcome { actions, exit: true }
        },
        MqttEvent::TransportError => {
            reg.set_connected(host, false);
            actions.push(BridgeAction::Broadcast(send_broker_status_to_peers(host, false)));
            actions.push(BridgeAction::RetryDelay);
            proof {
                assert(actions_view(actions@) =~= step_result(
                    old(reg)@,
                    host@,
                    event@,
                    timestamp@,
                ).1);
            }
            BrokerStepOutcome { actions, exit: false }
        },
    }
}

/// A string-valued request parameter, when the parameters are an object
/// that carries it.
pub open spec fn str_param(params: JsonData, key: Seq<u8>) -> Option<Seq<u8>> {
    match params {
        JsonData::Obj(m) => find_str_key(m, key),
        _ => Option::None,
    }
}

/// The registry and the actions after one decoded peer request: what the
/// dispatcher must compute. Unknown methods and malformed parameters fall
/// through without effect, except that the configuration rebroadcasts of the
/// save and remove methods happen regardless.
pub open spec fn dispatch_result(reg: Seq<MqttBrokerData>, env: JsonRpcData) -> (
    Seq<MqttBrokerData>,
    Seq<ActionData>,
) {
    if env.method == ascii_bytes("connect"@) {
        match str_param(env.params, ascii_bytes("hostname"@)) {
            Option::Some(h) => (
                reg,
                seq![
                    ActionData::SpawnConnect(h),
                    ActionData::PersistAddBroker(h),
                    ActionData::Broadcast(brokers_note(reg)),
                ],
            ),
            Option::None => (reg, Seq::empty()),
        }
    } else if env.method == ascii_bytes("remove"@) {
        match str_param(env.params, ascii_bytes("hostname"@)) {
            Option::Some(h) => {
                if has_broker(reg, h) {
                    let reg2 = reg.remove(broker_index(reg, h));
                    (
                        reg2,
                        seq![
                            ActionData::DisconnectClient(h),
                            ActionData::Broadcast(broker_removal_note(h)),
                            ActionData::PersistRemoveBroker(h),
                            ActionData::Broadcast(brokers_note(reg2)),
                        ],
                    )
                } else {
                    (
                        reg,
                        seq![
                            ActionData::PersistRemoveBroker(h),
                            ActionData::Broadcast(brokers_note(reg)),
                        ],
                    )
                }
            },
            Option::None => (reg, Seq::empty()),
        }
    } else if env.method == ascii_bytes("publish"@) {
        match (
            str_param(env.params, ascii_bytes("host"@)),
            str_param(env.params, ascii_bytes("topic"@)),
            str_param(env.params, ascii_bytes("payload"@)),
        ) {
            (Option::Some(h), Option::Some(t), Option::Some(p)) => (
                reg,
                if has_broker(reg, h) {
                    seq![
                        ActionData::Publish(
                            PublishRequestData {
                                host: h,
                                topic: t,
                                payload: p,
                                qos: 1,
                                retain: false,
                            },
                        ),
                    ]
                } else {
                    Seq::empty()
                },
            ),
            _ => (reg, Seq::empty()),
        }
    } else if env.method == ascii_bytes("save_command"@) {
        (
            reg,
            (match parse_command(env.params) {
                Option::Some(c) => seq![
                    ActionData::PersistSaveCommand(c.name, ser_json(command_json(c))),
                ],
                Option::None => Seq::empty(),
            }) + seq![ActionData::BroadcastCommands],
        )
    } else if env.method == ascii_bytes("remove_command"@) {
        (
            reg,
            (match str_param(env.params, ascii_bytes("name"@)) {
                Option::Some(n) => seq![ActionData::PersistRemoveCommand(n)],
                Option::None => Seq::empty(),
            }) + seq![ActionData::BroadcastCommands],
        )
    } else if env.method == ascii_bytes("save_pipeline"@) {
        (
            reg,
            (match parse_pipeline(env.params) {
                Option::Some(p) => seq![
                    ActionData::PersistSavePipeline(p.name, ser_json(pipeline_json(p))),
                ],
                Option::None => Seq::empty(),
            }) + seq![ActionData::BroadcastPipelines],
        )
    } else if env.method == ascii_bytes("remove_pipeline"@) {
        (
            reg,
            (match str_param(env.params, ascii_bytes("name"@)) {
                Option::Some(n) => seq![ActionData::PersistRemovePipeline(n)],
                Option::None => Seq::empty(),
            }) + seq![ActionData::BroadcastPipelines],
        )
    } else {
        (reg, Seq::empty())
    }
}

/// Decodes one inbound peer frame and routes it by method: broker
/// connections are spawned or torn down, publishes prepared, configuration
/// files rewritten, and the matching notifications queued for every peer.
/// A frame that does not decode is dropped without effect.
#[verifier::rlimit(60)]
pub fn deserialize_json_rpc_and_process(text: &Vec<u8>, reg: &mut BrokerRegistry) -> (r: Vec<
    BridgeAction,
>)
    requires
        wf_registry(old(reg)@),
    ensures
        wf_registry(final(reg)@),
        forall|e: JsonRpcData|
            text@ == #[trigger] ser_env(e) && jdepth(e.params) + 1 < JSON_DEPTH_LIMIT ==> (
            final(reg)@, actions_view(r@)) == dispatch_result(old(reg)@, e),
{
    proof {
        reveal_strlit("connect");
        reveal_strlit("remove");
        reveal_strlit("publish");
        reveal_strlit("save_command");
        reveal_strlit("remove_command");
        reveal_strlit("save_pipeline");
        reveal_strlit("remove_pipeline");
        reveal_strlit("hostname");
        reveal_strlit("host");
        reveal_strlit("topic");
        reveal_strlit("payload");
        reveal_strlit("name");
        reveal_strlit("broker_removal");
    }
    let mut actions: Vec<BridgeAction> = Vec::new();
    let env = match deserialize_json_rpc(text) {
        Ok(env) => env,
        Err(_) => {
            proof {
                assert(actions_view(actions@) =~= Seq::<ActionData>::empty());
            }
            return actions;
        },
    };
    let ghost ge = env@;
    if eq_bytes(&env.method, &str_bytes("connect")) {
        match get_params_obj_str(&env.params, "hostname") {
            Some(h) => {
                let h2 = h.clone();
                let h3 = h.clone();
                proof {
                    assert(h2@ =~= h@);
                    assert(h3@ =~= h@);
                }
                actions.push(BridgeAction::SpawnConnect(h));
                actions.push(BridgeAction::PersistAddBroker(h2));
                actions.push(BridgeAction::Broadcast(send_brokers(reg)));
                proof {
                    assert(actions_view(actions@) =~= dispatch_result(old(reg)@, ge).1);
                }
            },
            None => {
                proof {
                    assert(actions_view(actions@) =~= Seq::<ActionData>::empty());
                }
            },
        }
    } else if eq_bytes(&env.method, &str_bytes("remove")) {
        match get_params_obj_str(&env.params, "hostname") {
            Some(h) => {
                let removed = reg.remove(&h);
                if removed {
                    let h2 = h.clone();
                    let h3 = h.clone();
                    proof {
                        assert(h2@ =~= h@);
                        assert(h3@ =~= h@);
                    }
                    actions.push(BridgeAction::DisconnectClient(h2));
                    actions.push(
                        BridgeAction::Broadcast(
                            notification(str_bytes("broker_removal"), JsonValue::Str(h3)),
                        ),
                    );
                }
                let h4 = h.clone();
                proof {
                    assert(h4@ =~= h@);
                }
                actions.push(BridgeAction::PersistRemoveBroker(h4));
                actions.push(BridgeAction::Broadcast(send_brokers(reg)));
                proof {
                    assert(actions_view(actions@) =~= dispatch_result(old(reg)@, ge).1);
                }
            },
            None => {
                proof {
                    assert(actions_view(actions@) =~= Seq::<ActionData>::empty());
                }
            },
        }
    } else if eq_bytes(&env.method, &str_bytes("publish")) {
        let h = get_params_obj_str(&env.params, "host");
        let t = get_params_obj_str(&env.params, "topic");
        let p = get_params_obj_str(&env.params, "payload");
        match (h, t, p) {
            (Some(h), Some(t), Some(p)) => {
                match crate::mqtt::publish_message(reg, &h, t, p) {
                    Some(req) => {
                        actions.push(BridgeAction::Publish(req));
                        proof {
                            assert(actions_view(actions@) =~= dispatch_result(old(reg)@, ge).1);
                        }
                    },
                    None => {
                        proof {
                            assert(actions_view(actions@) =~= Seq::<ActionData>::empty());
                        }
                    },
                }
            },
            _ => {
                proof {
                    assert(actions_view(actions@) =~= Seq::<ActionData>::empty());
                }
            },
        }
    } else if eq_bytes(&env.method, &str_bytes("save_command")) {
        match add_to_commands(&env.params) {
            Some((name, content)) => {
                actions.push(BridgeAction::PersistSaveCommand(name, content));
            },
            None => {},
        }
        actions.push(BridgeAction::BroadcastCommands);
        proof {
            assert(actions_view(actions@) =~= dispatch_result(old(reg)@, ge).1);
        }
    } else if eq_bytes(&env.method, &str_bytes("remove_command")) {
        match name_of_params(&env.params) {
            Some(name) => {
                actions.push(BridgeAction::PersistRemoveCommand(name));
            },
            None => {},
        }
        actions.push(BridgeAction::BroadcastCommands);
        proof {
            assert(actions_view(actions@) =~= dispatch_result(old(reg)@, ge).1);
        }
    } else if eq_bytes(&env.method, &str_bytes("save_pipeline")) {
        match add_to_pipelines(&env.params) {
            Some((name, content)) => {
                actions.push(BridgeAction::PersistSavePipeline(name, content));
            },
            None => {},
        }
        actions.push(BridgeAction::BroadcastPipelines);
        proof {
            assert(actions_view(actions@) =~= dispatch_result(old(reg)@, ge).1);
        }
    } else if eq_bytes(&env.method, &str_bytes("remove_pipeline")) {
        match name_of_params(&env.params) {
            Some(name) => {
                actions.push(BridgeAction::PersistRemovePipeline(name));
            },
            None => {},
        }
        actions.push(BridgeAction::BroadcastPipelines);
        proof {
            assert(actions_view(actions@) =~= dispatch_result(old(reg)@, ge).1);
        }
    } else {
        proof {
            assert(actions_view(actions@) =~= Seq::<ActionData>::empty());
        }
    }
    actions
}

/// The string parameter `key` of a request's parameter object.
fn get_params_obj_str(params: &JsonValue, key: &str) -> (r: Option<Vec<u8>>)
    requires
        vstd::string::is_ascii(key),
    ensures
        match str_param(params@, ascii_bytes(key@)) {
            Option::Some(v) => r matches Some(b) && b@ == v,
            Option::None => r is None,
        },
{
    let kb = str_bytes(key);
    match params {
        JsonValue::Obj(members) => get_str_field(members, &kb),
        _ => None,
    }
}

/// The hosts to reconnect on startup, read from the saved `brokers.json`
/// contents. Replaying them opens the connections again without rewriting
/// the file.
pub fn connect_to_known_brokers(content: &Vec<u8>) -> (r: Vec<Vec<u8>>)
    ensures
        forall|list: Seq<Seq<u8>>|
            content@ == ser_json(#[trigger] broker_list_json(list)) ==> Seq::new(
                r@.len(),
                |i: int| r@[i]@,
            ) == list,
{
    get_known_brokers(content)
}

/// Handles one event with the arrival time stamped from the clock: whatever
/// time the clock gave, the outcome is one `broker_step` for it.
pub fn broker_step_now(reg: &mut BrokerRegistry, host: &Vec<u8>, event: MqttEvent) -> (r:
    BrokerStepOutcome)
    requires
        wf_registry(old(reg)@),
    ensures
        wf_registry(final(reg)@),
        exists|ts: Seq<u8>|
            (final(reg)@, actions_view(r.actions@), r.exit) == #[trigger] step_result(
                old(reg)@,
                host@,
                event@,
                ts,
            ),
{
    let ts = now_rfc3339();
    let r = broker_step(reg, host, event, &ts);
    proof {
        assert((final(reg)@, actions_view(r.actions@), r.exit) == step_result(
            old(reg)@,
            host@,
            event@,
            ts@,
        ));
    }
    r
}

} // verus!

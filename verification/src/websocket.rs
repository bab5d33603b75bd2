//! The peer registry and the notifications fanned out to peers.
//!
//! Peers are keyed by their remote address. Every server-initiated message
//! is built here as an envelope with a fixed method name and a parameter
//! object whose exact JSON value the contracts pin down; the network layer
//! only encodes and sends what these builders return.

use vstd::prelude::*;

use crate::config::CommandMessage;
use crate::config::PipelineMessage;
use crate::config::command_json;
use crate::config::pipeline_json;
use crate::json::ascii_bytes;
use crate::json::eq_bytes;
use crate::json::lemma_view_json_members;
use crate::json::lemma_view_json_seq;
use crate::json::str_bytes;
use crate::json::view_json_members;
use crate::json::view_json_seq;
use crate::json::JsonData;
use crate::json::JsonValue;
use crate::jsonrpc::notification;
use crate::jsonrpc::JsonRpcData;
use crate::jsonrpc::JsonRpcNotification;
use crate::mqtt::BrokerRegistry;
use crate::mqtt::MqttBroker;
use crate::mqtt::MqttBrokerData;
use crate::mqtt::MqttMessage;
use crate::mqtt::MqttMessageData;
use crate::mqtt::MqttTopics;
use crate::mqtt::MqttTopicsData;

verus! {

/// The peers currently connected, by remote address.
pub struct PeerRegistry {
    pub peers: Vec<Vec<u8>>,
}

impl View for PeerRegistry {
    type V = Seq<Seq<u8>>;

    open spec fn view(&self) -> Seq<Seq<u8>> {
        Seq::new(self.peers@.len(), |i: int| self.peers@[i]@)
    }
}

/// Index of the first entry for `addr`, or the length when there is none.
pub open spec fn peer_index(ps: Seq<Seq<u8>>, addr: Seq<u8>) -> int
    decreases ps.len(),
{
    if ps.len() == 0 {
        0
    } else if ps[0] == addr {
        0
    } else {
        1 + peer_index(ps.subrange(1, ps.len() as int), addr)
    }
}

pub open spec fn has_peer(ps: Seq<Seq<u8>>, addr: Seq<u8>) -> bool {
    peer_index(ps, addr) < ps.len()
}

/// Each address appears at most once.
pub open spec fn wf_peers(ps: Seq<Seq<u8>>) -> bool {
    forall|i: int, k: int| 0 <= i < k < ps.len() ==> ps[i] != ps[k]
}

pub proof fn lemma_peer_index_bounds(ps: Seq<Seq<u8>>, addr: Seq<u8>)
    ensures
        0 <= peer_index(ps, addr) <= ps.len(),
        peer_index(ps, addr) < ps.len() ==> ps[peer_index(ps, addr)] == addr,
        forall|k: int| 0 <= k < peer_index(ps, addr) ==> ps[k] != addr,
    decreases ps.len(),
{
    if ps.len() > 0 && ps[0] != addr {
        let t = ps.subrange(1, ps.len() as int);
        lemma_peer_index_bounds(t, addr);
        assert(forall|k: int| 0 <= k < t.len() ==> t[k] == ps[k + 1]);
        assert forall|k: int| 0 <= k < peer_index(ps, addr) implies ps[k] != addr by {
            if k > 0 {
                assert(t[k - 1] == ps[k]);
            }
        }
    }
}

proof fn lemma_peer_index_first(ps: Seq<Seq<u8>>, addr: Seq<u8>, i: int)
    requires
        0 <= i <= ps.len(),
        forall|k: int| 0 <= k < i ==> ps[k] != addr,
    ensures
        i < ps.len() && ps[i] == addr ==> peer_index(ps, addr) == i,
        i == ps.len() ==> peer_index(ps, addr) == ps.len(),
    decreases i,
{
    if i > 0 {
        let t = ps.subrange(1, ps.len() as int);
        assert(forall|k: int| 0 <= k < i - 1 ==> t[k] == ps[k + 1]);
        lemma_peer_index_first(t, addr, i - 1);
        if i < ps.len() && ps[i] == addr {
            assert(t[i - 1] == ps[i]);
        }
    }
}

impl PeerRegistry {
    /// An empty registry.
    pub fn new() -> (r: PeerRegistry)
        ensures
            r@ == Seq::<Seq<u8>>::empty(),
            wf_peers(r@),
    {
        let r = PeerRegistry { peers: Vec::new() };
        proof {
            assert(r@ =~= Seq::<Seq<u8>>::empty());
        }
        r
    }

    /// Position of the entry for `addr`, if there is one.
    pub fn find(&self, addr: &Vec<u8>) -> (r: Option<usize>)
        ensures
            has_peer(self@, addr@) ==> (r matches Some(i) && i == peer_index(self@, addr@)),
            !has_peer(self@, addr@) ==> r is None,
    {
        let mut i: usize = 0;
        while i < self.peers.len()
            invariant
                i <= self@.len(),
                self@.len() == self.peers@.len(),
                forall|k: int| 0 <= k < i ==> self@[k] != addr@,
            decreases self@.len() - i,
        {
            proof {
                assert(self@[i as int] == self.peers@[i as int]@);
            }
            if eq_bytes(&self.peers[i], addr) {
                proof {
                    lemma_peer_index_first(self@, addr@, i as int);
                }
                return Some(i);
            }
            i = i + 1;
        }
        proof {
            lemma_peer_index_first(self@, addr@, i as int);
        }
        None
    }

    /// Records a peer on upgrade; a second upgrade from the same address
    /// changes nothing.
    pub fn add_peer(&mut self, addr: &Vec<u8>) -> (added: bool)
        requires
            wf_peers(old(self)@),
        ensures
            wf_peers(final(self)@),
            has_peer(old(self)@, addr@) ==> !added && final(self)@ == old(self)@,
            !has_peer(old(self)@, addr@) ==> added && final(self)@ == old(self)@.push(addr@),
    {
        match self.find(addr) {
            Some(_) => false,
            None => {
                let a = addr.clone();
                proof {
                    assert(a@ =~= addr@);
                }
                self.peers.push(a);
                proof {
                    assert(self@ =~= old(self)@.push(addr@));
                    lemma_peer_index_bounds(old(self)@, addr@);
                }
                true
            },
        }
    }

    /// Forgets a peer when its session ends or its sink is found closed;
    /// removing an unknown address changes nothing.
    pub fn remove_peer(&mut self, addr: &Vec<u8>) -> (removed: bool)
        requires
            wf_peers(old(self)@),
        ensures
            wf_peers(final(self)@),
            has_peer(old(self)@, addr@) ==> removed && final(self)@ == old(self)@.remove(
                peer_index(old(self)@, addr@),
            ),
            !has_peer(old(self)@, addr@) ==> !removed && final(self)@ == old(self)@,
    {
        match self.find(addr) {
            Some(i) => {
                self.peers.remove(i);
                proof {
                    assert(self@ =~= old(self)@.remove(i as int));
                }
                true
            },
            None => false,
        }
    }
}

/// A payload on the wire: one JSON number per byte.
pub open spec fn payload_json(p: Seq<u8>) -> JsonData {
    JsonData::Arr(Seq::new(p.len(), |i: int| JsonData::Int(p[i] as u64)))
}

/// One stored message as JSON.
pub open spec fn message_json(m: MqttMessageData) -> JsonData {
    JsonData::Obj(
        seq![
            (ascii_bytes("timestamp"@), JsonData::Str(m.timestamp)),
            (ascii_bytes("payload"@), payload_json(m.payload)),
        ],
    )
}

/// One topic history as JSON.
pub open spec fn history_json(ms: Seq<MqttMessageData>) -> JsonData {
    JsonData::Arr(Seq::new(ms.len(), |i: int| message_json(ms[i])))
}

/// A broker's topic table as JSON: one member per topic.
pub open spec fn topics_json(ts: Seq<MqttTopicsData>) -> JsonData {
    JsonData::Obj(Seq::new(ts.len(), |i: int| (ts[i].topic, history_json(ts[i].messages))))
}

/// One broker record as JSON, the client handle omitted.
pub open spec fn broker_json(b: MqttBrokerData) -> JsonData {
    JsonData::Obj(
        seq![
            (ascii_bytes("broker"@), JsonData::Str(b.broker)),
            (ascii_bytes("connected"@), JsonData::Bool(b.connected)),
            (ascii_bytes("topics"@), topics_json(b.topics)),
        ],
    )
}

/// The whole registry snapshot as JSON.
pub open spec fn brokers_json(reg: Seq<MqttBrokerData>) -> JsonData {
    JsonData::Arr(Seq::new(reg.len(), |i: int| broker_json(reg[i])))
}

fn payload_value(p: &Vec<u8>) -> (r: JsonValue)
    ensures
        r@ == payload_json(p@),
{
    let mut elems: Vec<JsonValue> = Vec::new();
    let mut i: usize = 0;
    while i < p.len()
        invariant
            i <= p@.len(),
            elems@.len() == i,
            forall|k: int| 0 <= k < i ==> elems@[k]@ == JsonData::Int(p@[k] as u64),
        decreases p@.len() - i,
    {
        elems.push(JsonValue::Int(p[i] as u64));
        i = i + 1;
    }
    let r = JsonValue::Arr(elems);
    proof {
        lemma_view_json_seq(r->Arr_0@);
        assert(view_json_seq(r->Arr_0@) =~= payload_json(p@)->Arr_0);
    }
    r
}

fn message_value(m: &MqttMessage) -> (r: JsonValue)
    ensures
        r@ == message_json(m@),
{
    proof {
        reveal_strlit("timestamp");
        reveal_strlit("payload");
    }
    let mut members: Vec<(Vec<u8>, JsonValue)> = Vec::new();
    let ts = m.timestamp.clone();
    proof {
        assert(ts@ =~= m.timestamp@);
    }
    members.push((str_bytes("timestamp"), JsonValue::Str(ts)));
    members.push((str_bytes("payload"), payload_value(&m.payload)));
    let r = JsonValue::Obj(members);
    proof {
        lemma_view_json_members(r->Obj_0@);
        assert(view_json_members(r->Obj_0@) =~= message_json(m@)->Obj_0);
    }
    r
}

fn history_value(ms: &Vec<MqttMessage>) -> (r: JsonValue)
    ensures
        r@ == history_json(Seq::new(ms@.len(), |i: int| ms@[i]@)),
{
    let ghost vms = Seq::new(ms@.len(), |i: int| ms@[i]@);
    let mut elems: Vec<JsonValue> = Vec::new();
    let mut i: usize = 0;
    while i < ms.len()
        invariant
            i <= ms@.len(),
            vms == Seq::new(ms@.len(), |k: int| ms@[k]@),
            elems@.len() == i,
            forall|k: int| 0 <= k < i ==> elems@[k]@ == message_json(vms[k]),
        decreases ms@.len() - i,
    {
        elems.push(message_value(&ms[i]));
        i = i + 1;
    }
    let r = JsonValue::Arr(elems);
    proof {
        lemma_view_json_seq(r->Arr_0@);
        assert(view_json_seq(r->Arr_0@) =~= history_json(vms)->Arr_0);
    }
    r
}

fn topics_value(ts: &Vec<MqttTopics>) -> (r: JsonValue)
    ensures
        r@ == topics_json(Seq::new(ts@.len(), |i: int| ts@[i]@)),
{
    let ghost vts = Seq::new(ts@.len(), |i: int| ts@[i]@);
    let mut members: Vec<(Vec<u8>, JsonValue)> = Vec::new();
    let mut i: usize = 0;
    while i < ts.len()
        invariant
            i <= ts@.len(),
            vts == Seq::new(ts@.len(), |k: int| ts@[k]@),
            members@.len() == i,
            forall|k: int|
                0 <= k < i ==> members@[k].0@ == vts[k].topic && members@[k].1@ == history_json(
                    vts[k].messages,
                ),
        decreases ts@.len() - i,
    {
        let key = ts[i].topic.clone();
        proof {
            assert(key@ =~= ts@[i as int].topic@);
        }
        let hv = history_value(&ts[i].messages);
        proof {
            assert(Seq::new(ts@[i as int].messages@.len(), |k: int| ts@[i as int].messages@[k]@)
                == vts[i as int].messages);
        }
        members.push((key, hv));
        i = i + 1;
    }
    let r = JsonValue::Obj(members);
    proof {
        lemma_view_json_members(r->Obj_0@);
        assert(view_json_members(r->Obj_0@) =~= topics_json(vts)->Obj_0);
    }
    r
}

fn broker_value(b: &MqttBroker) -> (r: JsonValue)
    ensures
        r@ == broker_json(b@),
{
    proof {
        reveal_strlit("broker");
        reveal_strlit("connected");
        reveal_strlit("topics");
    }
    let mut members: Vec<(Vec<u8>, JsonValue)> = Vec::new();
    let name = b.broker.clone();
    proof {
        assert(name@ =~= b.broker@);
    }
    members.push((str_bytes("broker"), JsonValue::Str(name)));
    members.push((str_bytes("connected"), JsonValue::Bool(b.connected)));
    members.push((str_bytes("topics"), topics_value(&b.topics)));
    let r = JsonValue::Obj(members);
    proof {
        lemma_view_json_members(r->Obj_0@);
        assert(view_json_members(r->Obj_0@) =~= broker_json(b@)->Obj_0);
    }
    r
}

fn brokers_value(reg: &BrokerRegistry) -> (r: JsonValue)
    ensures
        r@ == brokers_json(reg@),
{
    let mut elems: Vec<JsonValue> = Vec::new();
    let mut i: usize = 0;
    while i < reg.brokers.len()
        invariant
            i <= reg.brokers@.len(),
            reg@.len() == reg.brokers@.len(),
            elems@.len() == i,
            forall|k: int| 0 <= k < i ==> elems@[k]@ == broker_json(reg@[k]),
        decreases reg.brokers@.len() - i,
    {
        let bv = broker_value(&reg.brokers[i]);
        proof {
            assert(reg@[i as int] == reg.brokers@[i as int]@);
        }
        elems.push(bv);
        i = i + 1;
    }
    let r = JsonValue::Arr(elems);
    proof {
        lemma_view_json_seq(r->Arr_0@);
        assert(view_json_seq(r->Arr_0@) =~= brokers_json(reg@)->Arr_0);
    }
    r
}

/// The `mqtt_message` notification every peer receives for one incoming
/// publish.
pub open spec fn mqtt_message_note(
    source: Seq<u8>,
    timestamp: Seq<u8>,
    topic: Seq<u8>,
    payload: Seq<u8>,
) -> JsonRpcData {
    JsonRpcData {
        jsonrpc: ascii_bytes("2.0"@),
        method: ascii_bytes("mqtt_message"@),
        params: JsonData::Obj(
            seq![
                (ascii_bytes("source"@), JsonData::Str(source)),
                (ascii_bytes("timestamp"@), JsonData::Str(timestamp)),
                (ascii_bytes("topic"@), JsonData::Str(topic)),
                (ascii_bytes("payload"@), payload_json(payload)),
            ],
        ),
    }
}

/// Builds the `mqtt_message` fanout for one incoming publish. The same
/// envelope goes to every peer.
pub fn send_message_to_peers(
    source: &Vec<u8>,
    topic: &Vec<u8>,
    payload: &Vec<u8>,
    timestamp: &Vec<u8>,
) -> (r: JsonRpcNotification)
    ensures
        r@ == mqtt_message_note(source@, timestamp@, topic@, payload@),
{
    proof {
        reveal_strlit("source");
        reveal_strlit("timestamp");
        reveal_strlit("topic");
        reveal_strlit("payload");
        reveal_strlit("mqtt_message");
    }
    let mut members: Vec<(Vec<u8>, JsonValue)> = Vec::new();
    let sv = source.clone();
    let tv = timestamp.clone();
    let topv = topic.clone();
    proof {
        assert(sv@ =~= source@);
        assert(tv@ =~= timestamp@);
        assert(topv@ =~= topic@);
    }
    members.push((str_bytes("source"), JsonValue::Str(sv)));
    members.push((str_bytes("timestamp"), JsonValue::Str(tv)));
    members.push((str_bytes("topic"), JsonValue::Str(topv)));
    members.push((str_bytes("payload"), payload_value(payload)));
    let params = JsonValue::Obj(members);
    proof {
        lemma_view_json_members(params->Obj_0@);
        assert(view_json_members(params->Obj_0@) =~= mqtt_message_note(
            source@,
            timestamp@,
            topic@,
            payload@,
        ).params->Obj_0);
    }
    notification(str_bytes("mqtt_message"), params)
}

/// The `mqtt_connection_status` notification for one broker's state change.
pub open spec fn status_note(source: Seq<u8>, connected: bool) -> JsonRpcData {
    JsonRpcData {
        jsonrpc: ascii_bytes("2.0"@),
        method: ascii_bytes("mqtt_connection_status"@),
        params: JsonData::Obj(
            seq![
                (ascii_bytes("source"@), JsonData::Str(source)),
                (ascii_bytes("connected"@), JsonData::Bool(connected)),
            ],
        ),
    }
}

/// Builds the `mqtt_connection_status` fanout for one broker.
pub fn send_broker_status_to_peers(source: &Vec<u8>, status: bool) -> (r: JsonRpcNotification)
    ensures
        r@ == status_note(source@, status),
{
    proof {
        reveal_strlit("source");
        reveal_strlit("connected");
        reveal_strlit("mqtt_connection_status");
    }
    let mut members: Vec<(Vec<u8>, JsonValue)> = Vec::new();
    let sv = source.clone();
    proof {
        assert(sv@ =~= source@);
    }
    members.push((str_bytes("source"), JsonValue::Str(sv)));
    members.push((str_bytes("connected"), JsonValue::Bool(status)));
    let params = JsonValue::Obj(members);
    proof {
        lemma_view_json_members(params->Obj_0@);
        assert(view_json_members(params->Obj_0@) =~= status_note(source@, status).params->Obj_0);
    }
    notification(str_bytes("mqtt_connection_status"), params)
}

/// The `mqtt_brokers` notification carrying a registry snapshot.
pub open spec fn brokers_note(reg: Seq<MqttBrokerData>) -> JsonRpcData {
    JsonRpcData {
        jsonrpc: ascii_bytes("2.0"@),
        method: ascii_bytes("mqtt_brokers"@),
        params: brokers_json(reg),
    }
}

/// Builds the `mqtt_brokers` notification for one peer from the current
/// registry snapshot.
pub fn send_brokers(reg: &BrokerRegistry) -> (r: JsonRpcNotification)
    ensures
        r@ == brokers_note(reg@),
{
    proof {
        reveal_strlit("mqtt_brokers");
    }
    notification(str_bytes("mqtt_brokers"), brokers_value(reg))
}

/// The envelope sent to every connected peer when the broker list changes:
/// the same registry snapshot each peer would be primed with.
pub fn broadcast_brokers(reg: &BrokerRegistry) -> (r: JsonRpcNotification)
    ensures
        r@ == brokers_note(reg@),
{
    send_brokers(reg)
}

/// The `commands` notification carrying every saved command.
pub open spec fn commands_note(cs: Seq<crate::config::CommandMessageData>) -> JsonRpcData {
    JsonRpcData {
        jsonrpc: ascii_bytes("2.0"@),
        method: ascii_bytes("commands"@),
        params: JsonData::Arr(Seq::new(cs.len(), |i: int| command_json(cs[i]))),
    }
}

/// Builds the `commands` notification from the saved commands.
pub fn send_commands(commands: &Vec<CommandMessage>) -> (r: JsonRpcNotification)
    ensures
        r@ == commands_note(Seq::new(commands@.len(), |i: int| commands@[i]@)),
{
    let ghost vcs = Seq::new(commands@.len(), |i: int| commands@[i]@);
    let mut elems: Vec<JsonValue> = Vec::new();
    let mut i: usize = 0;
    while i < commands.len()
        invariant
            i <= commands@.len(),
            vcs == Seq::new(commands@.len(), |k: int| commands@[k]@),
            elems@.len() == i,
            forall|k: int| 0 <= k < i ==> elems@[k]@ == command_json(vcs[k]),
        decreases commands@.len() - i,
    {
        elems.push(crate::config::command_value(&commands[i]));
        i = i + 1;
    }
    let params = JsonValue::Arr(elems);
    proof {
        reveal_strlit("commands");
        lemma_view_json_seq(params->Arr_0@);
        assert(view_json_seq(params->Arr_0@) =~= commands_note(vcs).params->Arr_0);
    }
    notification(str_bytes("commands"), params)
}

/// The `pipelines` notification carrying every saved pipeline.
pub open spec fn pipelines_note(ps: Seq<crate::config::PipelineMessageData>) -> JsonRpcData {
    JsonRpcData {
        jsonrpc: ascii_bytes("2.0"@),
        method: ascii_bytes("pipelines"@),
        params: JsonData::Arr(Seq::new(ps.len(), |i: int| pipeline_json(ps[i]))),
    }
}

/// Builds the `pipelines` notification from the saved pipelines.
pub fn send_pipelines(pipelines: &Vec<PipelineMessage>) -> (r: JsonRpcNotification)
    ensures
        r@ == pipelines_note(Seq::new(pipelines@.len(), |i: int| pipelines@[i]@)),
{
    let ghost vps = Seq::new(pipelines@.len(), |i: int| pipelines@[i]@);
    let mut elems: Vec<JsonValue> = Vec::new();
    let mut i: usize = 0;
    while i < pipelines.len()
        invariant
            i <= pipelines@.len(),
            vps == Seq::new(pipelines@.len(), |k: int| pipelines@[k]@),
            elems@.len() == i,
            forall|k: int| 0 <= k < i ==> elems@[k]@ == pipeline_json(vps[k]),
        decreases pipelines@.len() - i,
    {
        elems.push(crate::config::pipeline_value(&pipelines[i]));
        i = i + 1;
    }
    let params = JsonValue::Arr(elems);
    proof {
        reveal_strlit("pipelines");
        lemma_view_json_seq(params->Arr_0@);
        assert(view_json_seq(params->Arr_0@) =~= pipelines_note(vps).params->Arr_0);
    }
    notification(str_bytes("pipelines"), params)
}

/// A payload array nests one level.
pub proof fn lemma_payload_json_depth(p: Seq<u8>)
    ensures
        crate::json::jdepth(payload_json(p)) == 1,
{
    crate::json::lemma_jdepth_seq_bound(payload_json(p)->Arr_0, 0);
}

/// An `mqtt_message` fanout nests two levels, so its wire text always
/// decodes back to the same envelope.
pub proof fn lemma_mqtt_message_note_depth(
    source: Seq<u8>,
    timestamp: Seq<u8>,
    topic: Seq<u8>,
    payload: Seq<u8>,
)
    ensures
        crate::json::jdepth(mqtt_message_note(source, timestamp, topic, payload).params) <= 2,
{
    lemma_payload_json_depth(payload);
    crate::json::lemma_jdepth_members_bound(
        mqtt_message_note(source, timestamp, topic, payload).params->Obj_0,
        1,
    );
}

/// An `mqtt_connection_status` fanout nests one level.
pub proof fn lemma_status_note_depth(source: Seq<u8>, connected: bool)
    ensures
        crate::json::jdepth(status_note(source, connected).params) <= 1,
{
    crate::json::lemma_jdepth_members_bound(status_note(source, connected).params->Obj_0, 0);
}

/// A `commands` notification nests two levels.
pub proof fn lemma_commands_note_depth(cs: Seq<crate::config::CommandMessageData>)
    ensures
        crate::json::jdepth(commands_note(cs).params) <= 2,
{
    let a = commands_note(cs).params->Arr_0;
    assert forall|i: int| 0 <= i < a.len() implies crate::json::jdepth(#[trigger] a[i]) <= 1 by {
        crate::config::lemma_command_depth(cs[i]);
    }
    crate::json::lemma_jdepth_seq_bound(a, 1);
}

/// A `pipelines` notification nests four levels.
pub proof fn lemma_pipelines_note_depth(ps: Seq<crate::config::PipelineMessageData>)
    ensures
        crate::json::jdepth(pipelines_note(ps).params) <= 4,
{
    let a = pipelines_note(ps).params->Arr_0;
    assert forall|i: int| 0 <= i < a.len() implies crate::json::jdepth(#[trigger] a[i]) <= 3 by {
        crate::config::lemma_pipeline_depth(ps[i]);
    }
    crate::json::lemma_jdepth_seq_bound(a, 3);
}

/// An `mqtt_brokers` snapshot nests six levels, whatever the registry
/// holds, so it stays within the decoder's depth bound.
pub proof fn lemma_brokers_note_depth(reg: Seq<MqttBrokerData>)
    ensures
        crate::json::jdepth(brokers_note(reg).params) <= 6,
{
    let a = brokers_note(reg).params->Arr_0;
    assert forall|i: int| 0 <= i < a.len() implies crate::json::jdepth(#[trigger] a[i]) <= 5 by {
        let b = reg[i];
        let ts = topics_json(b.topics)->Obj_0;
        assert forall|t: int| 0 <= t < ts.len() implies crate::json::jdepth(
            (#[trigger] ts[t]).1,
        ) <= 3 by {
            let hs = history_json(b.topics[t].messages)->Arr_0;
            assert forall|q: int| 0 <= q < hs.len() implies crate::json::jdepth(
                #[trigger] hs[q],
            ) <= 2 by {
                lemma_payload_json_depth(b.topics[t].messages[q].payload);
                crate::json::lemma_jdepth_members_bound(
                    message_json(b.topics[t].messages[q])->Obj_0,
                    1,
                );
            }
            crate::json::lemma_jdepth_seq_bound(hs, 2);
        }
        crate::json::lemma_jdepth_members_bound(ts, 3);
        crate::json::lemma_jdepth_members_bound(broker_json(b)->Obj_0, 4);
    }
    crate::json::lemma_jdepth_seq_bound(a, 5);
}

/// Builds the two configuration notifications a fresh peer receives:
/// `commands`, then `pipelines`.
pub fn send_configs(commands: &Vec<CommandMessage>, pipelines: &Vec<PipelineMessage>) -> (r: (
    JsonRpcNotification,
    JsonRpcNotification,
))
    ensures
        r.0@ == commands_note(Seq::new(commands@.len(), |i: int| commands@[i]@)),
        r.1@ == pipelines_note(Seq::new(pipelines@.len(), |i: int| pipelines@[i]@)),
{
    (send_commands(commands), send_pipelines(pipelines))
}

/// Primes a fresh peer: exactly three notifications, in order the broker
/// snapshot, the saved commands and the saved pipelines. They are handed to
/// the peer's sink before any broker event can reach it.
pub fn prime_peer(
    reg: &BrokerRegistry,
    commands: &Vec<CommandMessage>,
    pipelines: &Vec<PipelineMessage>,
) -> (r: Vec<JsonRpcNotification>)
    ensures
        r@.len() == 3,
        r@[0]@ == brokers_note(reg@),
        r@[1]@ == commands_note(Seq::new(commands@.len(), |i: int| commands@[i]@)),
        r@[2]@ == pipelines_note(Seq::new(pipelines@.len(), |i: int| pipelines@[i]@)),
{
    let mut out: Vec<JsonRpcNotification> = Vec::new();
    out.push(send_brokers(reg));
    let (c, p) = send_configs(commands, pipelines);
    out.push(c);
    out.push(p);
    out
}

} // verus!

//! Broker records and the broker registry.
//!
//! The registry maps a broker host string to a live record: the last observed
//! connection state and a per-topic history of messages, each history capped
//! at the newest `HISTORY_LIMIT` entries. Payloads longer than
//! `crate::PAYLOAD_LIMIT` bytes are replaced by a human-readable marker
//! before they are stored or forwarded.

use vstd::prelude::*;

use crate::json::ascii_bytes;
use crate::json::dec_of;
use crate::json::encode_u64;
use crate::json::eq_bytes;
use crate::json::fold_digits;
use crate::json::is_digit;
use crate::json::lemma_fold_take_le;
use crate::json::str_bytes;
use crate::PAYLOAD_LIMIT;

verus! {

/// Most entries a single topic history retains; older entries are dropped
/// first.
pub const HISTORY_LIMIT: usize = 100;

/// One received message: when it arrived and what it carried.
pub struct MqttMessage {
    pub timestamp: Vec<u8>,
    pub payload: Vec<u8>,
}

pub struct MqttMessageData {
    pub timestamp: Seq<u8>,
    pub payload: Seq<u8>,
}

impl View for MqttMessage {
    type V = MqttMessageData;

    open spec fn view(&self) -> MqttMessageData {
        MqttMessageData { timestamp: self.timestamp@, payload: self.payload@ }
    }
}

/// The bounded history of one topic on one broker.
pub struct MqttTopics {
    pub topic: Vec<u8>,
    pub messages: Vec<MqttMessage>,
}

pub struct MqttTopicsData {
    pub topic: Seq<u8>,
    pub messages: Seq<MqttMessageData>,
}

impl View for MqttTopics {
    type V = MqttTopicsData;

    open spec fn view(&self) -> MqttTopicsData {
        MqttTopicsData {
            topic: self.topic@,
            messages: Seq::new(self.messages@.len(), |i: int| self.messages@[i]@),
        }
    }
}

/// One broker the bridge is connected to. The network client handle lives
/// outside the registry, keyed by the same host string.
pub struct MqttBroker {
    pub broker: Vec<u8>,
    pub connected: bool,
    pub topics: Vec<MqttTopics>,
}

pub struct MqttBrokerData {
    pub broker: Seq<u8>,
    pub connected: bool,
    pub topics: Seq<MqttTopicsData>,
}

impl View for MqttBroker {
    type V = MqttBrokerData;

    open spec fn view(&self) -> MqttBrokerData {
        MqttBrokerData {
            broker: self.broker@,
            connected: self.connected,
            topics: Seq::new(self.topics@.len(), |i: int| self.topics@[i]@),
        }
    }
}

/// The shared map from broker host string to live broker record.
pub struct BrokerRegistry {
    pub brokers: Vec<MqttBroker>,
}

impl View for BrokerRegistry {
    type V = Seq<MqttBrokerData>;

    open spec fn view(&self) -> Seq<MqttBrokerData> {
        Seq::new(self.brokers@.len(), |i: int| self.brokers@[i]@)
    }
}

/// Index of the first record for `host`, or `reg.len()` when there is none.
pub open spec fn broker_index(reg: Seq<MqttBrokerData>, host: Seq<u8>) -> int
    decreases reg.len(),
{
    if reg.len() == 0 {
        0
    } else if reg[0].broker == host {
        0
    } else {
        1 + broker_index(reg.subrange(1, reg.len() as int), host)
    }
}

pub open spec fn has_broker(reg: Seq<MqttBrokerData>, host: Seq<u8>) -> bool {
    broker_index(reg, host) < reg.len()
}

/// Index of the first history for `topic`, or `ts.len()` when there is none.
pub open spec fn topic_index(ts: Seq<MqttTopicsData>, topic: Seq<u8>) -> int
    decreases ts.len(),
{
    if ts.len() == 0 {
        0
    } else if ts[0].topic == topic {
        0
    } else {
        1 + topic_index(ts.subrange(1, ts.len() as int), topic)
    }
}

/// One more message in a bounded history: appended at the end, with the
/// oldest entries dropped first so that at most 100 remain.
pub open spec fn bounded_append(h: Seq<MqttMessageData>, m: MqttMessageData) -> Seq<
    MqttMessageData,
> {
    if h.len() < 100 {
        h.push(m)
    } else {
        h.skip(h.len() - 99).push(m)
    }
}

/// The topic table after one message arrived under `topic`: the matching
/// history grows under the bound, or a new one-message history appears.
pub open spec fn apply_publish_topics(
    ts: Seq<MqttTopicsData>,
    topic: Seq<u8>,
    m: MqttMessageData,
) -> Seq<MqttTopicsData> {
    let ti = topic_index(ts, topic);
    if ti < ts.len() {
        ts.update(ti, MqttTopicsData { topic, messages: bounded_append(ts[ti].messages, m) })
    } else {
        ts.push(MqttTopicsData { topic, messages: seq![m] })
    }
}

/// A broker record after one message arrived: connected, with the topic
/// table updated.
pub open spec fn apply_publish(b: MqttBrokerData, topic: Seq<u8>, m: MqttMessageData)
    -> MqttBrokerData {
    MqttBrokerData {
        broker: b.broker,
        connected: true,
        topics: apply_publish_topics(b.topics, topic, m),
    }
}

/// The history bound holds after any append, and the appended message is the
/// newest entry, with the previous entries kept in order before it.
pub proof fn lemma_bounded_append(h: Seq<MqttMessageData>, m: MqttMessageData)
    requires
        h.len() <= 100,
    ensures
        bounded_append(h, m).len() <= 100,
        bounded_append(h, m).last() == m,
        forall|i: int|
            0 <= i < bounded_append(h, m).len() - 1 ==> #[trigger] bounded_append(h, m)[i] == h[h.len()
                - (bounded_append(h, m).len() - 1) + i],
{
}

/// A well-formed broker record stays well-formed under any publish.
pub proof fn lemma_wf_apply_publish(b: MqttBrokerData, topic: Seq<u8>, m: MqttMessageData)
    requires
        wf_broker(b),
    ensures
        wf_broker(apply_publish(b, topic, m)),
{
    lemma_topic_index_bounds(b.topics, topic);
    let ts2 = apply_publish_topics(b.topics, topic, m);
    assert forall|i: int| 0 <= i < ts2.len() implies (#[trigger] ts2[i]).messages.len() <= 100 by {
        let ti = topic_index(b.topics, topic);
        if ti < b.topics.len() {
            if i != ti {
                assert(ts2[i] == b.topics[i]);
            } else {
                lemma_bounded_append(b.topics[ti].messages, m);
            }
        } else {
            if i < b.topics.len() {
                assert(ts2[i] == b.topics[i]);
            }
        }
    }
    assert forall|i: int, k: int| 0 <= i < k < ts2.len() implies (#[trigger] ts2[i]).topic != (
    #[trigger] ts2[k]).topic by {
        let ti = topic_index(b.topics, topic);
        if ti < b.topics.len() {
            assert(ts2[i].topic == b.topics[i].topic);
            assert(ts2[k].topic == b.topics[k].topic);
        } else {
            if k < b.topics.len() {
                assert(ts2[i] == b.topics[i] && ts2[k] == b.topics[k]);
            } else {
                assert(ts2[i] == b.topics[i] && ts2[k].topic == topic);
            }
        }
    }
}

/// The history bound: in a well-formed registry, every topic history of
/// every broker holds at most 100 entries — and every operation of this
/// module keeps registries well-formed, so the bound survives any sequence
/// of appends.
pub proof fn lemma_history_bounded(reg: Seq<MqttBrokerData>, i: int, t: int)
    requires
        wf_registry(reg),
        0 <= i < reg.len(),
        0 <= t < reg[i].topics.len(),
    ensures
        reg[i].topics[t].messages.len() <= 100,
{
}

/// Well-formed registry: one record per host, one history per topic, every
/// history within the bound.
pub open spec fn wf_registry(reg: Seq<MqttBrokerData>) -> bool {
    &&& forall|i: int, k: int|
        0 <= i < k < reg.len() ==> (#[trigger] reg[i]).broker != (#[trigger] reg[k]).broker
    &&& forall|i: int| 0 <= i < reg.len() ==> wf_broker(#[trigger] reg[i])
}

pub open spec fn wf_broker(b: MqttBrokerData) -> bool {
    &&& forall|i: int, k: int|
        0 <= i < k < b.topics.len() ==> (#[trigger] b.topics[i]).topic != (
        #[trigger] b.topics[k]).topic
    &&& forall|i: int| 0 <= i < b.topics.len() ==> (#[trigger] b.topics[i]).messages.len() <= 100
}

/// What `broker_index` finds: a record for `host` at the index when there is
/// one, and no record for `host` anywhere before it.
pub proof fn lemma_broker_index_bounds(reg: Seq<MqttBrokerData>, host: Seq<u8>)
    ensures
        0 <= broker_index(reg, host) <= reg.len(),
        broker_index(reg, host) < reg.len() ==> reg[broker_index(reg, host)].broker == host,
        forall|k: int| 0 <= k < broker_index(reg, host) ==> (#[trigger] reg[k]).broker != host,
    decreases reg.len(),
{
    if reg.len() > 0 && reg[0].broker != host {
        let t = reg.subrange(1, reg.len() as int);
        lemma_broker_index_bounds(t, host);
        assert(forall|k: int| 0 <= k < t.len() ==> (#[trigger] t[k]) == reg[k + 1]);
        assert forall|k: int| 0 <= k < broker_index(reg, host) implies (
        #[trigger] reg[k]).broker != host by {
            if k > 0 {
                assert(t[k - 1] == reg[k]);
            }
        }
    }
}

/// Same, for topic histories.
pub proof fn lemma_topic_index_bounds(ts: Seq<MqttTopicsData>, topic: Seq<u8>)
    ensures
        0 <= topic_index(ts, topic) <= ts.len(),
        topic_index(ts, topic) < ts.len() ==> ts[topic_index(ts, topic)].topic == topic,
        forall|k: int| 0 <= k < topic_index(ts, topic) ==> (#[trigger] ts[k]).topic != topic,
    decreases ts.len(),
{
    if ts.len() > 0 && ts[0].topic != topic {
        let t = ts.subrange(1, ts.len() as int);
        lemma_topic_index_bounds(t, topic);
        assert(forall|k: int| 0 <= k < t.len() ==> (#[trigger] t[k]) == ts[k + 1]);
        assert forall|k: int| 0 <= k < topic_index(ts, topic) implies (
        #[trigger] ts[k]).topic != topic by {
            if k > 0 {
                assert(t[k - 1] == ts[k]);
            }
        }
    }
}

/// With no record for `host` before `i`, a record at `i` is the first one,
/// and reaching the end without one means there is none.
pub proof fn lemma_broker_index_first(reg: Seq<MqttBrokerData>, host: Seq<u8>, i: int)
    requires
        0 <= i <= reg.len(),
        forall|k: int| 0 <= k < i ==> (#[trigger] reg[k]).broker != host,
    ensures
        i < reg.len() && reg[i].broker == host ==> broker_index(reg, host) == i,
        i == reg.len() ==> broker_index(reg, host) == reg.len(),
    decreases i,
{
    if i > 0 {
        let t = reg.subrange(1, reg.len() as int);
        assert(forall|k: int| 0 <= k < i - 1 ==> (#[trigger] t[k]) == reg[k + 1]);
        lemma_broker_index_first(t, host, i - 1);
        if i < reg.len() && reg[i].broker == host {
            assert(t[i - 1] == reg[i]);
        }
    }
}

/// Same, for topic histories.
pub proof fn lemma_topic_index_first(ts: Seq<MqttTopicsData>, topic: Seq<u8>, i: int)
    requires
        0 <= i <= ts.len(),
        forall|k: int| 0 <= k < i ==> (#[trigger] ts[k]).topic != topic,
    ensures
        i < ts.len() && ts[i].topic == topic ==> topic_index(ts, topic) == i,
        i == ts.len() ==> topic_index(ts, topic) == ts.len(),
    decreases i,
{
    if i > 0 {
        let t = ts.subrange(1, ts.len() as int);
        assert(forall|k: int| 0 <= k < i - 1 ==> (#[trigger] t[k]) == ts[k + 1]);
        lemma_topic_index_first(t, topic, i - 1);
        if i < ts.len() && ts[i].topic == topic {
            assert(t[i - 1] == ts[i]);
        }
    }
}

impl BrokerRegistry {
    /// An empty registry.
    pub fn new() -> (r: BrokerRegistry)
        ensures
            r@ == Seq::<MqttBrokerData>::empty(),
            wf_registry(r@),
    {
        let r = BrokerRegistry { brokers: Vec::new() };
        proof {
            assert(r@ =~= Seq::<MqttBrokerData>::empty());
        }
        r
    }

    /// Position of the record for `host`, if there is one.
    pub fn find(&self, host: &Vec<u8>) -> (r: Option<usize>)
        ensures
            has_broker(self@, host@) ==> (r matches Some(i) && i == broker_index(self@, host@)),
            !has_broker(self@, host@) ==> r is None,
    {
        let mut i: usize = 0;
        while i < self.brokers.len()
            invariant
                i <= self@.len(),
                self@.len() == self.brokers@.len(),
                forall|k: int| 0 <= k < i ==> (#[trigger] self@[k]).broker != host@,
            decreases self@.len() - i,
        {
            if eq_bytes(&self.brokers[i].broker, host) {
                proof {
                    assert(self@[i as int].broker == self.brokers@[i as int].broker@);
                    lemma_broker_index_first(self@, host@, i as int);
                }
                return Some(i);
            }
            proof {
                assert(self@[i as int].broker == self.brokers@[i as int].broker@);
            }
            i = i + 1;
        }
        proof {
            lemma_broker_index_first(self@, host@, i as int);
        }
        None
    }

    /// Records a new broker as disconnected with no history, unless one with
    /// this host already exists.
    pub fn insert_new(&mut self, host: &Vec<u8>) -> (inserted: bool)
        requires
            wf_registry(old(self)@),
        ensures
            wf_registry(final(self)@),
            has_broker(old(self)@, host@) ==> !inserted && final(self)@ == old(self)@,
            !has_broker(old(self)@, host@) ==> inserted && final(self)@ == old(self)@.push(
                MqttBrokerData {
                    broker: host@,
                    connected: false,
                    topics: Seq::<MqttTopicsData>::empty(),
                },
            ),
    {
        match self.find(host) {
            Some(_) => false,
            None => {
                let hostc = host.clone();
                proof {
                    assert(hostc@ =~= host@);
                }
                let rec = MqttBroker { broker: hostc, connected: false, topics: Vec::new() };
                proof {
                    assert(rec@ == MqttBrokerData {
                        broker: host@,
                        connected: false,
                        topics: Seq::<MqttTopicsData>::empty(),
                    }) by {
                        assert(rec@.topics =~= Seq::<MqttTopicsData>::empty());
                    }
                }
                self.brokers.push(rec);
                proof {
                    assert(self@ =~= old(self)@.push(rec@));
                    lemma_broker_index_bounds(old(self)@, host@);
                    assert forall|k: int| 0 <= k < self@.len() implies wf_broker(
                        #[trigger] self@[k],
                    ) by {
                        if k < old(self)@.len() {
                            assert(self@[k] == old(self)@[k]);
                        }
                    }
                }
                true
            },
        }
    }

    /// Removes the record for `host`; removing an unknown host changes
    /// nothing.
    pub fn remove(&mut self, host: &Vec<u8>) -> (removed: bool)
        requires
            wf_registry(old(self)@),
        ensures
            wf_registry(final(self)@),
            has_broker(old(self)@, host@) ==> removed && final(self)@ == old(self)@.remove(
                broker_index(old(self)@, host@),
            ),
            !has_broker(old(self)@, host@) ==> !removed && final(self)@ == old(self)@,
    {
        match self.find(host) {
            Some(i) => {
                self.brokers.remove(i);
                proof {
                    assert(self@ =~= old(self)@.remove(i as int));
                }
                true
            },
            None => false,
        }
    }

    /// Records one received message for `host` under `topic`: the broker is
    /// marked connected and the message is appended to that topic's history
    /// under the bound. A missing host changes nothing.
    pub fn record_publish(
        &mut self,
        host: &Vec<u8>,
        topic: &Vec<u8>,
        payload: Vec<u8>,
        timestamp: Vec<u8>,
    ) -> (found: bool)
        requires
            wf_registry(old(self)@),
        ensures
            wf_registry(final(self)@),
            !has_broker(old(self)@, host@) ==> !found && final(self)@ == old(self)@,
            has_broker(old(self)@, host@) ==> found && final(self)@ == old(self)@.update(
                broker_index(old(self)@, host@),
                apply_publish(
                    old(self)@[broker_index(old(self)@, host@)],
                    topic@,
                    MqttMessageData { timestamp: timestamp@, payload: payload@ },
                ),
            ),
    {
        let ghost msg = MqttMessageData { timestamp: timestamp@, payload: payload@ };
        let idx = match self.find(host) {
            Some(i) => i,
            None => {
                return false;
            },
        };
        let ghost bi = idx as int;
        let ghost old_rec = self@[bi];
        let mut rec = self.brokers.remove(idx);
        proof {
            assert(rec@ == old_rec);
            assert(wf_broker(old_rec));
        }
        rec.connected = true;
        let ghost old_topics = rec@.topics;
        let mut t: usize = 0;
        while t < rec.topics.len()
            invariant
                t <= old_topics.len(),
                old_topics == rec@.topics,
                old_topics.len() == rec.topics@.len(),
                forall|k: int| 0 <= k < t ==> (#[trigger] old_topics[k]).topic != topic@,
            ensures
                t <= old_topics.len(),
                old_topics == rec@.topics,
                old_topics.len() == rec.topics@.len(),
                forall|k: int| 0 <= k < t ==> (#[trigger] old_topics[k]).topic != topic@,
                t < old_topics.len() ==> old_topics[t as int].topic == topic@,
            decreases old_topics.len() - t,
        {
            proof {
                assert(old_topics[t as int].topic == rec.topics@[t as int].topic@);
            }
            if eq_bytes(&rec.topics[t].topic, topic) {
                break ;
            }
            t = t + 1;
        }
        let found_topic = t < rec.topics.len();
        if found_topic {
            proof {
                lemma_topic_index_first(old_topics, topic@, t as int);
            }
            let mut th = rec.topics.remove(t);
            let ghost old_msgs = th@.messages;
            proof {
                assert(th@ == old_topics[t as int]);
                assert(old_topics == old_rec.topics);
                assert(wf_broker(old_rec));
                assert(old_rec.topics[t as int].messages.len() <= 100);
                assert(old_msgs.len() <= 100);
                assert(old_msgs.len() == th.messages@.len());
            }
            if th.messages.len() >= HISTORY_LIMIT {
                th.messages.remove(0);
                proof {
                    assert(old_msgs.len() == 100);
                    assert(Seq::new(th.messages@.len(), |i: int| th.messages@[i]@)
                        =~= old_msgs.skip(old_msgs.len() - 99));
                }
            }
            th.messages.push(MqttMessage { timestamp, payload });
            proof {
                assert(th@.messages =~= bounded_append(old_msgs, msg));
            }
            rec.topics.insert(t, th);
            proof {
                assert(rec@.topics =~= apply_publish_topics(old_topics, topic@, msg));
            }
        } else {
            proof {
                lemma_topic_index_first(old_topics, topic@, t as int);
            }
            let mut msgs: Vec<MqttMessage> = Vec::new();
            msgs.push(MqttMessage { timestamp, payload });
            let topicc = topic.clone();
            proof {
                assert(topicc@ =~= topic@);
            }
            let th = MqttTopics { topic: topicc, messages: msgs };
            proof {
                assert(th@.messages =~= seq![msg]);
            }
            rec.topics.push(th);
            proof {
                assert(rec@.topics =~= apply_publish_topics(old_topics, topic@, msg));
            }
        }
        proof {
            assert(rec@ == apply_publish(old_rec, topic@, msg));
        }
        self.brokers.insert(idx, rec);
        proof {
            assert(self@ =~= old(self)@.update(bi, apply_publish(old_rec, topic@, msg)));
            lemma_wf_apply_publish(old_rec, topic@, msg);
            assert forall|k: int| 0 <= k < self@.len() implies wf_broker(#[trigger] self@[k]) by {
                if k != bi {
                    assert(self@[k] == old(self)@[k]);
                }
            }
            assert forall|i: int, k: int| 0 <= i < k < self@.len() implies (
            #[trigger] self@[i]).broker != (#[trigger] self@[k]).broker by {
                assert(self@[i] == old(self)@.update(bi, apply_publish(old_rec, topic@, msg))[i]);
            }
        }
        true
    }

    /// Sets the observed connection state of `host`, when it is present.
    pub fn set_connected(&mut self, host: &Vec<u8>, connected: bool) -> (found: bool)
        requires
            wf_registry(old(self)@),
        ensures
            wf_registry(final(self)@),
            has_broker(old(self)@, host@) ==> found && final(self)@ == old(self)@.update(
                broker_index(old(self)@, host@),
                MqttBrokerData {
                    broker: old(self)@[broker_index(old(self)@, host@)].broker,
                    connected,
                    topics: old(self)@[broker_index(old(self)@, host@)].topics,
                },
            ),
            !has_broker(old(self)@, host@) ==> !found && final(self)@ == old(self)@,
    {
        match self.find(host) {
            Some(i) => {
                let mut rec = self.brokers.remove(i);
                rec.connected = connected;
                self.brokers.insert(i, rec);
                proof {
                    let bi = i as int;
                    assert(self@ =~= old(self)@.update(
                        bi,
                        MqttBrokerData {
                            broker: old(self)@[bi].broker,
                            connected,
                            topics: old(self)@[bi].topics,
                        },
                    ));
                    assert forall|k: int| 0 <= k < self@.len() implies wf_broker(
                        #[trigger] self@[k],
                    ) by {
                        if k != bi {
                            assert(self@[k] == old(self)@[k]);
                        }
                    }
                }
                true
            },
            None => false,
        }
    }
}

/// The human-readable marker that replaces an oversized payload:
/// `Payload size limit exceeded: <N>.`
pub open spec fn marker_bytes(n: nat) -> Seq<u8> {
    ascii_bytes("Payload size limit exceeded: "@) + dec_of(n) + ascii_bytes("."@)
}

/// What is stored and forwarded for an incoming payload: the raw bytes, or
/// the marker when they exceed the limit.
pub open spec fn stored_payload(p: Seq<u8>) -> Seq<u8> {
    if p.len() > PAYLOAD_LIMIT {
        marker_bytes(p.len())
    } else {
        p
    }
}

/// Applies the oversize rule to an incoming payload.
pub fn effective_payload(payload: Vec<u8>) -> (r: Vec<u8>)
    ensures
        r@ == stored_payload(payload@),
{
    if payload.len() > PAYLOAD_LIMIT {
        proof {
            reveal_strlit("Payload size limit exceeded: ");
            reveal_strlit(".");
        }
        let mut out = str_bytes("Payload size limit exceeded: ");
        encode_u64(payload.len() as u64, &mut out);
        out.push(46);
        proof {
            assert(out@ =~= marker_bytes(payload@.len()));
        }
        out
    } else {
        payload
    }
}

/// Index of the first occurrence of `b` in `s`, or `s.len()` when absent.
pub open spec fn find_byte(s: Seq<u8>, b: u8) -> int
    decreases s.len(),
{
    if s.len() == 0 {
        0
    } else if s[0] == b {
        0
    } else {
        1 + find_byte(s.subrange(1, s.len() as int), b)
    }
}

/// What `find_byte` finds: an occurrence at the index when there is one,
/// and none anywhere before it.
pub proof fn lemma_find_byte_bounds(s: Seq<u8>, b: u8)
    ensures
        0 <= find_byte(s, b) <= s.len(),
        find_byte(s, b) < s.len() ==> s[find_byte(s, b)] == b,
        forall|k: int| 0 <= k < find_byte(s, b) ==> s[k] != b,
    decreases s.len(),
{
    if s.len() > 0 && s[0] != b {
        let t = s.subrange(1, s.len() as int);
        lemma_find_byte_bounds(t, b);
        assert(forall|k: int| 0 <= k < t.len() ==> t[k] == s[k + 1]);
        assert forall|k: int| 0 <= k < find_byte(s, b) implies s[k] != b by {
            if k > 0 {
                assert(t[k - 1] == s[k]);
            }
        }
    }
}

pub proof fn lemma_find_byte_first(s: Seq<u8>, b: u8, i: int)
    requires
        0 <= i <= s.len(),
        forall|k: int| 0 <= k < i ==> s[k] != b,
    ensures
        i < s.len() && s[i] == b ==> find_byte(s, b) == i,
        i == s.len() ==> find_byte(s, b) == s.len(),
    decreases i,
{
    if i > 0 {
        let t = s.subrange(1, s.len() as int);
        assert(forall|k: int| 0 <= k < i - 1 ==> t[k] == s[k + 1]);
        lemma_find_byte_first(t, b, i - 1);
        if i < s.len() && s[i] == b {
            assert(t[i - 1] == s[i]);
        }
    }
}

/// The decimal port segment of a `host:port` string: what stands between the
/// first colon and the next colon or the end.
pub open spec fn port_segment(h: Seq<u8>) -> Seq<u8> {
    let after = h.skip(find_byte(h, 58) + 1);
    after.take(find_byte(after, 58))
}

/// A host string the bridge can open: some `name:port` where the port
/// segment is a non-empty decimal number no greater than 65535.
pub open spec fn valid_host_port(h: Seq<u8>) -> bool {
    &&& find_byte(h, 58) < h.len()
    &&& port_segment(h).len() > 0
    &&& forall|k: int| 0 <= k < port_segment(h).len() ==> is_digit(#[trigger] port_segment(h)[k])
    &&& fold_digits(port_segment(h)) <= 65535
}

/// Splits `host:port` into the name and the parsed port number.
pub fn parse_host_port(h: &Vec<u8>) -> (r: Option<(Vec<u8>, u16)>)
    ensures
        valid_host_port(h@) ==> (r matches Some(p) && p.0@ == h@.take(find_byte(h@, 58))
            && p.1 == fold_digits(port_segment(h@))),
        !valid_host_port(h@) ==> r is None,
{
    let ghost gh = h@;
    let mut name: Vec<u8> = Vec::new();
    let mut i: usize = 0;
    while i < h.len()
        invariant
            i <= gh.len(),
            gh == h@,
            name@ == gh.take(i as int),
            forall|k: int| 0 <= k < i ==> gh[k] != 58,
        ensures
            i <= gh.len(),
            gh == h@,
            name@ == gh.take(i as int),
            forall|k: int| 0 <= k < i ==> gh[k] != 58,
            i < gh.len() ==> gh[i as int] == 58,
        decreases gh.len() - i,
    {
        let c = h[i];
        if c == 58 {
            break ;
        }
        name.push(c);
        proof {
            assert(name@ =~= gh.take(i as int + 1));
        }
        i = i + 1;
    }
    proof {
        lemma_find_byte_first(gh, 58, i as int);
    }
    if i >= h.len() {
        return None;
    }
    let ghost seg = port_segment(gh);
    let start = i + 1;
    let mut j = start;
    let mut val: u32 = 0;
    while j < h.len() && h[j] != 58
        invariant
            start <= j <= gh.len(),
            start == find_byte(gh, 58) + 1,
            start <= gh.len(),
            gh == h@,
            seg == port_segment(gh),
            forall|k: int| start <= k < j ==> gh[k] != 58 && is_digit(gh[k]),
            val <= 65535,
            val == fold_digits(gh.subrange(start as int, j as int)),
        ensures
            start <= j <= gh.len(),
            gh == h@,
            seg == port_segment(gh),
            forall|k: int| start <= k < j ==> gh[k] != 58 && is_digit(gh[k]),
            val <= 65535,
            val == fold_digits(gh.subrange(start as int, j as int)),
            j == gh.len() || gh[j as int] == 58 || !is_digit(gh[j as int]),
            j < gh.len() && gh[j as int] != 58 ==> !is_digit(gh[j as int]),
        decreases gh.len() - j,
    {
        let c = h[j];
        if !(48 <= c && c <= 57) {
            break ;
        }
        let d = c - 48;
        if val > 6553 || (val == 6553 && d > 5) {
            // the decimal port would exceed 65535
            proof {
                lemma_port_overflow(gh, start as int, j as int, val, d);
            }
            return None;
        }
        val = val * 10 + d as u32;
        proof {
            assert(gh.subrange(start as int, j as int + 1).drop_last() =~= gh.subrange(
                start as int,
                j as int,
            ));
        }
        j = j + 1;
    }
    if j < h.len() && h[j] != 58 {
        // stopped on a byte that is neither digit nor colon: it lies inside
        // the port segment and makes the host string invalid
        proof {
            let after = gh.skip(start as int);
            assert(forall|k: int| 0 <= k < after.len() ==> after[k] == gh[start + k]);
            lemma_find_byte_bounds(after, 58);
            assert(forall|k: int| 0 <= k <= j - start ==> after[k] != 58);
            lemma_find_byte_at_least(after, 58, j - start + 1);
            assert(seg.len() == find_byte(after, 58));
            assert(seg[j - start] == after[j - start]);
            assert(!is_digit(seg[j - start]));
            assert(!valid_host_port(gh));
        }
        return None;
    }
    proof {
        let after = gh.skip(start as int);
        assert(forall|k: int| 0 <= k < after.len() ==> after[k] == gh[start + k]);
        lemma_find_byte_first(after, 58, j - start);
        if j < gh.len() {
            assert(after[j - start] == gh[j as int]);
            assert(find_byte(after, 58) == j - start);
        } else {
            assert(j - start == after.len());
            assert(find_byte(after, 58) == after.len());
        }
        assert(seg =~= gh.subrange(start as int, j as int));
    }
    if j == start {
        proof {
            assert(seg.len() == 0);
        }
        return None;
    }
    proof {
        assert(seg == gh.subrange(start as int, j as int));
        assert(forall|k: int| 0 <= k < seg.len() ==> is_digit(#[trigger] seg[k])) by {
            assert(forall|k: int|
                0 <= k < seg.len() ==> seg[k] == gh[start + k] && is_digit(gh[start + k]));
        }
        assert(valid_host_port(gh));
        assert(name@ == gh.take(find_byte(gh, 58)));
    }
    Some((name, val as u16))
}

/// The port digits read so far already exceed 65535, so the whole segment
/// does: the host string is invalid.
proof fn lemma_port_overflow(gh: Seq<u8>, start: int, j: int, val: u32, d: u8)
    requires
        0 <= start <= j < gh.len(),
        start == find_byte(gh, 58) + 1,
        forall|k: int| start <= k < j ==> gh[k] != 58 && is_digit(gh[k]),
        is_digit(gh[j]),
        gh[j] != 58,
        val == fold_digits(gh.subrange(start, j)),
        val * 10 + d > 65535,
        d == gh[j] - 48,
    ensures
        !valid_host_port(gh),
{
    let after = gh.skip(start);
    let seg = port_segment(gh);
    if valid_host_port(gh) {
        assert(forall|k: int| 0 <= k < after.len() ==> after[k] == gh[start + k]);
        // the next colon comes after position j, so the prefix up to j + 1
        // lies inside the segment
        assert(forall|k: int| 0 <= k <= j - start ==> after[k] != 58);
        lemma_find_byte_bounds(after, 58);
        lemma_find_byte_at_least(after, 58, j - start + 1);
        assert(seg.len() == find_byte(after, 58));
        assert(seg.len() >= j - start + 1);
        assert(forall|k: int| 0 <= k < seg.len() ==> seg[k] == gh[start + k]);
        assert(seg.take(j - start) =~= gh.subrange(start, j));
        assert(seg.take(j - start + 1).drop_last() =~= seg.take(j - start));
        assert(seg.take(j - start + 1).last() == gh[j]);
        assert(fold_digits(seg.take(j - start + 1)) == fold_digits(gh.subrange(start, j)) * 10
            + crate::json::digit_val(gh[j]));
        assert(fold_digits(seg.take(j - start + 1)) == val * 10 + d);
        lemma_fold_take_le(seg, j - start + 1);
        assert(fold_digits(seg) >= val * 10 + d);
        assert(false);
    }
}

/// `find_byte` finds no occurrence before one exists: with no match in the
/// first `i` positions the result is at least `i`.
proof fn lemma_find_byte_at_least(s: Seq<u8>, b: u8, i: int)
    requires
        0 <= i <= s.len(),
        forall|k: int| 0 <= k < i ==> s[k] != b,
    ensures
        find_byte(s, b) >= i,
    decreases i,
{
    lemma_find_byte_bounds(s, b);
    if i > 0 {
        let t = s.subrange(1, s.len() as int);
        assert(forall|k: int| 0 <= k < i - 1 ==> t[k] == s[k + 1]);
        lemma_find_byte_at_least(t, b, i - 1);
    }
}

/// Relies on uuid::Uuid::new_v4 for a fresh random identifier, and on its
/// hyphenated `Display` form, which is 36 characters long.
#[verifier::external_body]
pub(crate) fn new_client_id() -> (r: Vec<u8>)
    ensures
        r@.len() == 36,
{
    uuid::Uuid::new_v4().to_string().into_bytes()
}

/// Relies on chrono::Utc::now and DateTime::to_rfc3339 for the current time
/// as an RFC 3339 text. Nothing is promised of the value: it depends on the
/// clock.
#[verifier::external_body]
pub(crate) fn now_rfc3339() -> (r: Vec<u8>)
{
    chrono::Utc::now().to_rfc3339().into_bytes()
}

/// Everything needed to open one broker connection; the network layer turns
/// it into a client without further decisions.
pub struct ConnectPlan {
    pub host: Vec<u8>,
    pub port: u16,
    pub client_id: Vec<u8>,
    pub keep_alive_secs: u64,
    pub max_packet_size: u32,
    pub channel_capacity: usize,
    pub subscribe_topic: Vec<u8>,
    pub subscribe_qos: u8,
}

/// Turns a `host:port` string into a connection plan: a fresh random client
/// id, a five-second keep-alive, the large packet-size cap, and an initial
/// subscription to every topic at quality of service 0. An invalid host
/// string yields nothing.
pub fn connect_to_mqtt_host(host: &Vec<u8>) -> (r: Option<ConnectPlan>)
    ensures
        valid_host_port(host@) <==> r is Some,
        r matches Some(p) ==> {
            &&& p.host@ == host@.take(find_byte(host@, 58))
            &&& p.port == fold_digits(port_segment(host@))
            &&& p.client_id@.len() == 36
            &&& p.keep_alive_secs == 5
            &&& p.max_packet_size == 1024000000
            &&& p.channel_capacity == 10
            &&& p.subscribe_topic@ == seq![35u8]
            &&& p.subscribe_qos == 0
        },
{
    let (name, port) = match parse_host_port(host) {
        Some(p) => p,
        None => {
            return None;
        },
    };
    let mut subscribe_topic: Vec<u8> = Vec::new();
    subscribe_topic.push(35);
    proof {
        assert(subscribe_topic@ =~= seq![35u8]);
    }
    Some(
        ConnectPlan {
            host: name,
            port,
            client_id: new_client_id(),
            keep_alive_secs: 5,
            max_packet_size: 1024000000,
            channel_capacity: 10,
            subscribe_topic,
            subscribe_qos: 0,
        },
    )
}

/// One outbound publish, ready for the network layer: quality of service 1,
/// not retained.
pub struct PublishRequest {
    pub host: Vec<u8>,
    pub topic: Vec<u8>,
    pub payload: Vec<u8>,
    pub qos: u8,
    pub retain: bool,
}

pub struct PublishRequestData {
    pub host: Seq<u8>,
    pub topic: Seq<u8>,
    pub payload: Seq<u8>,
    pub qos: u8,
    pub retain: bool,
}

impl View for PublishRequest {
    type V = PublishRequestData;

    open spec fn view(&self) -> PublishRequestData {
        PublishRequestData {
            host: self.host@,
            topic: self.topic@,
            payload: self.payload@,
            qos: self.qos,
            retain: self.retain,
        }
    }
}

/// Prepares an outbound publish to a known broker at quality of service 1
/// with the retain flag clear; an unknown host yields nothing and the
/// request is dropped.
pub fn publish_message(reg: &BrokerRegistry, host: &Vec<u8>, topic: Vec<u8>, payload: Vec<u8>) -> (r:
    Option<PublishRequest>)
    ensures
        has_broker(reg@, host@) <==> r is Some,
        r matches Some(p) ==> p@ == (PublishRequestData {
            host: host@,
            topic: topic@,
            payload: payload@,
            qos: 1,
            retain: false,
        }),
{
    match reg.find(host) {
        Some(_) => {
            let hostc = host.clone();
            proof {
                assert(hostc@ =~= host@);
            }
            Some(PublishRequest { host: hostc, topic, payload, qos: 1, retain: false })
        },
        None => None,
    }
}

} // verus!

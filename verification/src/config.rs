//! Persisted configuration: the broker list, named commands and named
//! pipelines.
//!
//! The disk layout is one JSON array of host strings for the brokers and one
//! JSON object per command or pipeline. Everything here works on file
//! contents as byte strings; reading and writing the files is the caller's
//! business. Serialization round-trips: what is written parses back to the
//! same value.

use vstd::prelude::*;

use crate::json::ascii_bytes;
use crate::json::eq_bytes;
use crate::json::find_key;
use crate::json::find_str_key;
use crate::json::get_str_field;
use crate::json::jdepth;
use crate::json::lemma_jdepth_seq_bound;
use crate::json::lemma_jdepth_members_bound;
use crate::json::lemma_view_json_members;
use crate::json::lemma_view_json_seq;
use crate::json::ser_json;
use crate::json::str_bytes;
use crate::json::view_json_members;
use crate::json::view_json_seq;
use crate::json::decode_json;
use crate::json::encode_value;
use crate::json::JsonData;
use crate::json::JsonValue;
use crate::json::JSON_DEPTH_LIMIT;

verus! {

/// A named prepared publish.
pub struct CommandMessage {
    pub name: Vec<u8>,
    pub topic: Vec<u8>,
    pub payload: Vec<u8>,
}

pub struct CommandMessageData {
    pub name: Seq<u8>,
    pub topic: Seq<u8>,
    pub payload: Seq<u8>,
}

impl View for CommandMessage {
    type V = CommandMessageData;

    open spec fn view(&self) -> CommandMessageData {
        CommandMessageData { name: self.name@, topic: self.topic@, payload: self.payload@ }
    }
}

/// One step of a named pipeline.
pub struct PipelineEntry {
    pub topic: Vec<u8>,
}

pub struct PipelineEntryData {
    pub topic: Seq<u8>,
}

impl View for PipelineEntry {
    type V = PipelineEntryData;

    open spec fn view(&self) -> PipelineEntryData {
        PipelineEntryData { topic: self.topic@ }
    }
}

/// A named sequence of topics.
pub struct PipelineMessage {
    pub name: Vec<u8>,
    pub pipeline: Vec<PipelineEntry>,
}

pub struct PipelineMessageData {
    pub name: Seq<u8>,
    pub pipeline: Seq<PipelineEntryData>,
}

impl View for PipelineMessage {
    type V = PipelineMessageData;

    open spec fn view(&self) -> PipelineMessageData {
        PipelineMessageData {
            name: self.name@,
            pipeline: Seq::new(self.pipeline@.len(), |i: int| self.pipeline@[i]@),
        }
    }
}

/// A command as the JSON object written to its file.
pub open spec fn command_json(c: CommandMessageData) -> JsonData {
    JsonData::Obj(
        seq![
            (ascii_bytes("name"@), JsonData::Str(c.name)),
            (ascii_bytes("topic"@), JsonData::Str(c.topic)),
            (ascii_bytes("payload"@), JsonData::Str(c.payload)),
        ],
    )
}

/// A pipeline entry as JSON.
pub open spec fn entry_json(e: PipelineEntryData) -> JsonData {
    JsonData::Obj(seq![(ascii_bytes("topic"@), JsonData::Str(e.topic))])
}

/// A pipeline as the JSON object written to its file.
pub open spec fn pipeline_json(p: PipelineMessageData) -> JsonData {
    JsonData::Obj(
        seq![
            (ascii_bytes("name"@), JsonData::Str(p.name)),
            (
                ascii_bytes("pipeline"@),
                JsonData::Arr(Seq::new(p.pipeline.len(), |i: int| entry_json(p.pipeline[i]))),
            ),
        ],
    )
}

/// Builds the JSON object of a command.
pub fn command_value(c: &CommandMessage) -> (r: JsonValue)
    ensures
        r@ == command_json(c@),
{
    proof {
        reveal_strlit("name");
        reveal_strlit("topic");
        reveal_strlit("payload");
    }
    let mut members: Vec<(Vec<u8>, JsonValue)> = Vec::new();
    let n = c.name.clone();
    let t = c.topic.clone();
    let p = c.payload.clone();
    proof {
        assert(n@ =~= c.name@);
        assert(t@ =~= c.topic@);
        assert(p@ =~= c.payload@);
    }
    members.push((str_bytes("name"), JsonValue::Str(n)));
    members.push((str_bytes("topic"), JsonValue::Str(t)));
    members.push((str_bytes("payload"), JsonValue::Str(p)));
    let r = JsonValue::Obj(members);
    proof {
        lemma_view_json_members(r->Obj_0@);
        assert(view_json_members(r->Obj_0@) =~= command_json(c@)->Obj_0);
    }
    r
}

/// Builds the JSON object of a pipeline.
pub fn pipeline_value(p: &PipelineMessage) -> (r: JsonValue)
    ensures
        r@ == pipeline_json(p@),
{
    proof {
        reveal_strlit("name");
        reveal_strlit("pipeline");
        reveal_strlit("topic");
    }
    let ghost vp = p@;
    let mut elems: Vec<JsonValue> = Vec::new();
    let mut i: usize = 0;
    while i < p.pipeline.len()
        invariant
            i <= p.pipeline@.len(),
            vp == p@,
            vp.pipeline.len() == p.pipeline@.len(),
            elems@.len() == i,
            forall|k: int| 0 <= k < i ==> elems@[k]@ == entry_json(vp.pipeline[k]),
        decreases p.pipeline@.len() - i,
    {
        proof {
            reveal_strlit("topic");
        }
        let mut ms: Vec<(Vec<u8>, JsonValue)> = Vec::new();
        let t = p.pipeline[i].topic.clone();
        proof {
            assert(t@ =~= p.pipeline@[i as int].topic@);
        }
        ms.push((str_bytes("topic"), JsonValue::Str(t)));
        let ev = JsonValue::Obj(ms);
        proof {
            lemma_view_json_members(ev->Obj_0@);
            assert(view_json_members(ev->Obj_0@) =~= entry_json(vp.pipeline[i as int])->Obj_0);
        }
        elems.push(ev);
        i = i + 1;
    }
    let arr = JsonValue::Arr(elems);
    proof {
        lemma_view_json_seq(arr->Arr_0@);
        assert(view_json_seq(arr->Arr_0@) =~= Seq::new(
            vp.pipeline.len(),
            |k: int| entry_json(vp.pipeline[k]),
        ));
    }
    let mut members: Vec<(Vec<u8>, JsonValue)> = Vec::new();
    let n = p.name.clone();
    proof {
        assert(n@ =~= p.name@);
    }
    members.push((str_bytes("name"), JsonValue::Str(n)));
    members.push((str_bytes("pipeline"), arr));
    let r = JsonValue::Obj(members);
    proof {
        lemma_view_json_members(r->Obj_0@);
        assert(view_json_members(r->Obj_0@) =~= pipeline_json(vp)->Obj_0);
    }
    r
}

/// The saved broker list as JSON: an array of host strings in order.
pub open spec fn broker_list_json(list: Seq<Seq<u8>>) -> JsonData {
    JsonData::Arr(Seq::new(list.len(), |i: int| JsonData::Str(list[i])))
}

/// A broker list nests one level only.
pub proof fn lemma_broker_list_depth(list: Seq<Seq<u8>>)
    ensures
        jdepth(broker_list_json(list)) == 1,
{
    let a = Seq::new(list.len(), |i: int| JsonData::Str(list[i]));
    lemma_jdepth_seq_bound(a, 0);
}

fn broker_list_value(list: &Vec<Vec<u8>>) -> (r: JsonValue)
    ensures
        r@ == broker_list_json(Seq::new(list@.len(), |i: int| list@[i]@)),
{
    let ghost vl = Seq::new(list@.len(), |i: int| list@[i]@);
    let mut elems: Vec<JsonValue> = Vec::new();
    let mut i: usize = 0;
    while i < list.len()
        invariant
            i <= list@.len(),
            vl == Seq::new(list@.len(), |k: int| list@[k]@),
            elems@.len() == i,
            forall|k: int| 0 <= k < i ==> elems@[k]@ == JsonData::Str(vl[k]),
        decreases list@.len() - i,
    {
        let h = list[i].clone();
        proof {
            assert(h@ =~= list@[i as int]@);
        }
        elems.push(JsonValue::Str(h));
        i = i + 1;
    }
    let r = JsonValue::Arr(elems);
    proof {
        lemma_view_json_seq(r->Arr_0@);
        assert(view_json_seq(r->Arr_0@) =~= broker_list_json(vl)->Arr_0);
    }
    r
}

/// Reads the saved broker list out of the `brokers.json` file contents.
/// Contents that do not hold a JSON array of strings give the empty list;
/// the list written by the companion writers reads back exactly.
pub fn get_known_brokers(content: &Vec<u8>) -> (r: Vec<Vec<u8>>)
    ensures
        forall|list: Seq<Seq<u8>>|
            content@ == ser_json(#[trigger] broker_list_json(list)) ==> Seq::new(
                r@.len(),
                |i: int| r@[i]@,
            ) == list,
{
    let ghost gc = content@;
    proof {
        assert forall|list: Seq<Seq<u8>>|
            gc == ser_json(broker_list_json(list)) implies jdepth(broker_list_json(list))
            < JSON_DEPTH_LIMIT by {
            lemma_broker_list_depth(list);
        }
    }
    let decoded = match decode_json(content) {
        Some(v) => v,
        None => {
            return Vec::new();
        },
    };
    let ghost dv = decoded@;
    match decoded {
        JsonValue::Arr(elems) => {
            let ghost a = view_json_seq(elems@);
            proof {
                lemma_view_json_seq(elems@);
            }
            let mut out: Vec<Vec<u8>> = Vec::new();
            let mut i: usize = 0;
            while i < elems.len()
                invariant
                    i <= elems@.len(),
                    a == view_json_seq(elems@),
                    a.len() == elems@.len(),
                    forall|k: int| 0 <= k < a.len() ==> a[k] == elems@[k]@,
                    out@.len() == i,
                    gc == content@,
                    forall|k: int| 0 <= k < i ==> JsonData::Str(out@[k]@) == a[k],
                    forall|list: Seq<Seq<u8>>|
                        gc == ser_json(#[trigger] broker_list_json(list)) ==> JsonData::Arr(a)
                            == broker_list_json(list),
                decreases elems@.len() - i,
            {
                match &elems[i] {
                    JsonValue::Str(b) => {
                        let h = b.clone();
                        proof {
                            assert(h@ =~= b@);
                        }
                        out.push(h);
                    },
                    _ => {
                        proof {
                            assert forall|list: Seq<Seq<u8>>|
                                gc == ser_json(broker_list_json(list)) implies false by {
                                assert(a[i as int] == broker_list_json(list)->Arr_0[i as int]);
                            }
                        }
                        return Vec::new();
                    },
                }
                i = i + 1;
            }
            proof {
                assert forall|list: Seq<Seq<u8>>|
                    gc == ser_json(broker_list_json(list)) implies Seq::new(
                    out@.len(),
                    |k: int| out@[k]@,
                ) == list by {
                    assert(a == broker_list_json(list)->Arr_0);
                    assert(out@.len() == list.len());
                    assert forall|k: int| 0 <= k < out@.len() implies out@[k]@ == list[k] by {
                        assert(a[k] == JsonData::Str(list[k]));
                        assert(JsonData::Str(out@[k]@) == a[k]);
                    }
                    assert(Seq::new(out@.len(), |k: int| out@[k]@) =~= list);
                }
            }
            out
        },
        _ => {
            proof {
                assert forall|list: Seq<Seq<u8>>|
                    gc == ser_json(broker_list_json(list)) implies false by {
                    assert(dv == broker_list_json(list));
                }
            }
            Vec::new()
        },
    }
}

/// How many times `h` stands in the list.
pub open spec fn count_in(list: Seq<Seq<u8>>, h: Seq<u8>) -> nat
    decreases list.len(),
{
    if list.len() == 0 {
        0
    } else {
        (if list[0] == h {
            1nat
        } else {
            0nat
        }) + count_in(list.subrange(1, list.len() as int), h)
    }
}

/// Index of the first occurrence of `h`, or the length when absent.
pub open spec fn list_index(list: Seq<Seq<u8>>, h: Seq<u8>) -> int
    decreases list.len(),
{
    if list.len() == 0 {
        0
    } else if list[0] == h {
        0
    } else {
        1 + list_index(list.subrange(1, list.len() as int), h)
    }
}

/// The broker list after removing `h`: the first occurrence goes, or
/// nothing changes when `h` is absent.
pub open spec fn remove_first(list: Seq<Seq<u8>>, h: Seq<u8>) -> Seq<Seq<u8>> {
    if list_index(list, h) < list.len() {
        list.remove(list_index(list, h))
    } else {
        list
    }
}

proof fn lemma_list_index_bounds(list: Seq<Seq<u8>>, h: Seq<u8>)
    ensures
        0 <= list_index(list, h) <= list.len(),
        list_index(list, h) < list.len() ==> list[list_index(list, h)] == h,
        forall|k: int| 0 <= k < list_index(list, h) ==> list[k] != h,
    decreases list.len(),
{
    if list.len() > 0 && list[0] != h {
        let t = list.subrange(1, list.len() as int);
        lemma_list_index_bounds(t, h);
        assert(forall|k: int| 0 <= k < t.len() ==> t[k] == list[k + 1]);
        assert forall|k: int| 0 <= k < list_index(list, h) implies list[k] != h by {
            if k > 0 {
                assert(t[k - 1] == list[k]);
            }
        }
    }
}

proof fn lemma_list_index_first(list: Seq<Seq<u8>>, h: Seq<u8>, i: int)
    requires
        0 <= i <= list.len(),
        forall|k: int| 0 <= k < i ==> list[k] != h,
    ensures
        i < list.len() && list[i] == h ==> list_index(list, h) == i,
        i == list.len() ==> list_index(list, h) == list.len(),
    decreases i,
{
    if i > 0 {
        let t = list.subrange(1, list.len() as int);
        assert(forall|k: int| 0 <= k < i - 1 ==> t[k] == list[k + 1]);
        lemma_list_index_first(t, h, i - 1);
        if i < list.len() && list[i] == h {
            assert(t[i - 1] == list[i]);
        }
    }
}

/// Adding a host raises its count by exactly one and leaves every other
/// host's count unchanged.
pub proof fn lemma_add_broker_count(list: Seq<Seq<u8>>, h: Seq<u8>, g: Seq<u8>)
    ensures
        count_in(list.push(h), h) == count_in(list, h) + 1,
        g != h ==> count_in(list.push(h), g) == count_in(list, g),
    decreases list.len(),
{
    if list.len() == 0 {
        assert(list.push(h)[0] == h);
        assert(list.push(h).subrange(1, 1) =~= Seq::<Seq<u8>>::empty());
        assert(count_in(Seq::<Seq<u8>>::empty(), h) == 0);
        assert(count_in(Seq::<Seq<u8>>::empty(), g) == 0);
        assert(count_in(list.push(h), h) == 1);
        assert(g != h ==> count_in(list.push(h), g) == 0);
    } else {
        let t = list.subrange(1, list.len() as int);
        assert(list.push(h)[0] == list[0]);
        assert(list.push(h).subrange(1, list.push(h).len() as int) =~= t.push(h));
        lemma_add_broker_count(t, h, g);
        assert(count_in(list.push(h), h) == (if list[0] == h {
            1nat
        } else {
            0nat
        }) + count_in(t.push(h), h));
        assert(count_in(list, h) == (if list[0] == h {
            1nat
        } else {
            0nat
        }) + count_in(t, h));
        assert(count_in(list.push(h), g) == (if list[0] == g {
            1nat
        } else {
            0nat
        }) + count_in(t.push(h), g));
        assert(count_in(list, g) == (if list[0] == g {
            1nat
        } else {
            0nat
        }) + count_in(t, g));
    }
}

/// Removing a host lowers its count by one when present and changes nothing
/// when absent, and leaves every other host's count unchanged.
pub proof fn lemma_remove_broker_count(list: Seq<Seq<u8>>, h: Seq<u8>, g: Seq<u8>)
    ensures
        count_in(list, h) == 0 ==> remove_first(list, h) == list,
        count_in(list, h) > 0 ==> count_in(remove_first(list, h), h) == count_in(list, h) - 1,
        g != h ==> count_in(remove_first(list, h), g) == count_in(list, g),
    decreases list.len(),
{
    lemma_list_index_bounds(list, h);
    if list.len() == 0 {
    } else {
        let t = list.subrange(1, list.len() as int);
        lemma_remove_broker_count(t, h, g);
        lemma_list_index_bounds(t, h);
        if list[0] == h {
            assert(remove_first(list, h) =~= t);
        } else {
            if list_index(t, h) < t.len() {
                assert(list_index(list, h) == 1 + list_index(t, h));
                assert(remove_first(list, h) =~= seq![list[0]] + remove_first(t, h));
                let rr = seq![list[0]] + remove_first(t, h);
                assert(rr.subrange(1, rr.len() as int) =~= remove_first(t, h));
                assert(count_in(rr, h) == count_in(remove_first(t, h), h));
                assert(count_in(rr, g) == (if list[0] == g {
                    1nat
                } else {
                    0nat
                }) + count_in(remove_first(t, h), g));
            } else {
                assert(remove_first(list, h) == list);
                assert(count_in(list, h) == count_in(t, h));
                assert(count_in(t, h) == 0) by {
                    lemma_count_zero_when_absent(t, h);
                }
            }
        }
    }
}

/// A host past the end of `list_index` never occurs, so its count is zero.
proof fn lemma_count_zero_when_absent(list: Seq<Seq<u8>>, h: Seq<u8>)
    requires
        list_index(list, h) == list.len(),
    ensures
        count_in(list, h) == 0,
    decreases list.len(),
{
    if list.len() > 0 {
        lemma_count_zero_when_absent(list.subrange(1, list.len() as int), h);
    }
}

/// Count and presence agree: a positive count is an occurrence.
pub proof fn lemma_count_presence(list: Seq<Seq<u8>>, h: Seq<u8>)
    ensures
        count_in(list, h) > 0 <==> list_index(list, h) < list.len(),
    decreases list.len(),
{
    if list.len() > 0 {
        lemma_count_presence(list.subrange(1, list.len() as int), h);
    }
}

/// The new `brokers.json` contents after a broker was added: the parsed
/// list, unreadable contents counting as empty, with the host appended.
pub fn add_to_brokers(content: &Vec<u8>, broker: &Vec<u8>) -> (r: Vec<u8>)
    ensures
        forall|list: Seq<Seq<u8>>|
            content@ == ser_json(#[trigger] broker_list_json(list)) ==> r@ == ser_json(
                broker_list_json(list.push(broker@)),
            ),
{
    let mut list = get_known_brokers(content);
    let ghost pre = Seq::new(list@.len(), |i: int| list@[i]@);
    let b = broker.clone();
    proof {
        assert(b@ =~= broker@);
    }
    list.push(b);
    proof {
        assert(Seq::new(list@.len(), |i: int| list@[i]@) =~= pre.push(broker@));
    }
    encode_value(&broker_list_value(&list))
}

/// The new `brokers.json` contents after a broker was removed: the first
/// matching entry goes; removing an absent host leaves the list as it was.
pub fn remove_from_brokers(content: &Vec<u8>, broker: &Vec<u8>) -> (r: Vec<u8>)
    ensures
        forall|list: Seq<Seq<u8>>|
            content@ == ser_json(#[trigger] broker_list_json(list)) ==> r@ == ser_json(
                broker_list_json(remove_first(list, broker@)),
            ),
{
    let mut list = get_known_brokers(content);
    let ghost pre = Seq::new(list@.len(), |i: int| list@[i]@);
    let mut i: usize = 0;
    while i < list.len()
        invariant
            i <= list@.len(),
            pre == Seq::new(list@.len(), |k: int| list@[k]@),
            pre.len() == list@.len(),
            forall|k: int| 0 <= k < i ==> pre[k] != broker@,
        ensures
            i <= list@.len(),
            pre == Seq::new(list@.len(), |k: int| list@[k]@),
            pre.len() == list@.len(),
            forall|k: int| 0 <= k < i ==> pre[k] != broker@,
            i < list@.len() ==> pre[i as int] == broker@,
        decreases list@.len() - i,
    {
        proof {
            assert(pre[i as int] == list@[i as int]@);
        }
        if eq_bytes(&list[i], broker) {
            break ;
        }
        i = i + 1;
    }
    proof {
        lemma_list_index_first(pre, broker@, i as int);
    }
    if i < list.len() {
        list.remove(i);
        proof {
            assert(Seq::new(list@.len(), |k: int| list@[k]@) =~= remove_first(pre, broker@));
        }
    } else {
        proof {
            assert(remove_first(pre, broker@) == pre);
        }
    }
    encode_value(&broker_list_value(&list))
}

/// What a JSON value holds as a command: the string fields `name`, `topic`
/// and `payload` of an object, all three required.
pub open spec fn parse_command(j: JsonData) -> Option<CommandMessageData> {
    match j {
        JsonData::Obj(m) => match (
            find_str_key(m, ascii_bytes("name"@)),
            find_str_key(m, ascii_bytes("topic"@)),
            find_str_key(m, ascii_bytes("payload"@)),
        ) {
            (Option::Some(n), Option::Some(t), Option::Some(p)) => Option::Some(
                CommandMessageData { name: n, topic: t, payload: p },
            ),
            _ => Option::None,
        },
        _ => Option::None,
    }
}

/// A written command parses back to itself.
pub proof fn lemma_command_round_trip(c: CommandMessageData)
    ensures
        parse_command(command_json(c)) == Option::Some(c),
{
    reveal_strlit("name");
    reveal_strlit("topic");
    reveal_strlit("payload");
    let m = command_json(c)->Obj_0;
    assert(ascii_bytes("name"@).len() == 4);
    assert(ascii_bytes("topic"@).len() == 5);
    assert(ascii_bytes("payload"@).len() == 7);
    crate::json::lemma_find_key_first(m, ascii_bytes("name"@), 0);
    crate::json::lemma_find_key_first(m, ascii_bytes("topic"@), 1);
    crate::json::lemma_find_key_first(m, ascii_bytes("payload"@), 2);
}

/// The file payload for a saved command: its name and the JSON text to
/// write under `commands/<name>.json`, or nothing when the parameters do
/// not form a command.
pub fn add_to_commands(params: &JsonValue) -> (r: Option<(Vec<u8>, Vec<u8>)>)
    ensures
        match parse_command(params@) {
            Option::Some(c) => r matches Some(p) && p.0@ == c.name && p.1@ == ser_json(
                command_json(c),
            ),
            Option::None => r is None,
        },
{
    proof {
        reveal_strlit("name");
        reveal_strlit("topic");
        reveal_strlit("payload");
    }
    match params {
        JsonValue::Obj(members) => {
            let name = match get_str_field(members, &str_bytes("name")) {
                Some(n) => n,
                None => {
                    return None;
                },
            };
            let topic = match get_str_field(members, &str_bytes("topic")) {
                Some(t) => t,
                None => {
                    return None;
                },
            };
            let payload = match get_str_field(members, &str_bytes("payload")) {
                Some(p) => p,
                None => {
                    return None;
                },
            };
            let cmd = CommandMessage { name, topic, payload };
            let content = encode_value(&command_value(&cmd));
            let filename = cmd.name;
            Some((filename, content))
        },
        _ => None,
    }
}

/// The name named in a `remove_command` or `remove_pipeline` request, when
/// the parameters carry one.
pub fn name_of_params(params: &JsonValue) -> (r: Option<Vec<u8>>)
    ensures
        match params@ {
            JsonData::Obj(m) => match find_str_key(m, ascii_bytes("name"@)) {
                Option::Some(n) => r matches Some(v) && v@ == n,
                Option::None => r is None,
            },
            _ => r is None,
        },
{
    proof {
        reveal_strlit("name");
    }
    match params {
        JsonValue::Obj(members) => get_str_field(members, &str_bytes("name")),
        _ => None,
    }
}

/// The file to delete for a `remove_command` request.
pub fn remove_from_commands(params: &JsonValue) -> (r: Option<Vec<u8>>)
    ensures
        match params@ {
            JsonData::Obj(m) => match find_str_key(m, ascii_bytes("name"@)) {
                Option::Some(n) => r matches Some(v) && v@ == n,
                Option::None => r is None,
            },
            _ => r is None,
        },
{
    name_of_params(params)
}

/// The file to delete for a `remove_pipeline` request.
pub fn remove_from_pipelines(params: &JsonValue) -> (r: Option<Vec<u8>>)
    ensures
        match params@ {
            JsonData::Obj(m) => match find_str_key(m, ascii_bytes("name"@)) {
                Option::Some(n) => r matches Some(v) && v@ == n,
                Option::None => r is None,
            },
            _ => r is None,
        },
{
    name_of_params(params)
}

/// What one element of a pipeline array holds: the string `topic` of an
/// object.
pub open spec fn entry_topic(j: JsonData) -> Option<Seq<u8>> {
    match j {
        JsonData::Obj(m) => find_str_key(m, ascii_bytes("topic"@)),
        _ => Option::None,
    }
}

/// What a JSON value holds as a pipeline: the string `name` and the array
/// `pipeline` of an object, every element of which names a topic.
pub open spec fn parse_pipeline(j: JsonData) -> Option<PipelineMessageData> {
    match j {
        JsonData::Obj(m) => match (find_str_key(m, ascii_bytes("name"@)), find_key(
            m,
            ascii_bytes("pipeline"@),
        )) {
            (Option::Some(n), Option::Some(JsonData::Arr(a))) => {
                if forall|i: int| 0 <= i < a.len() ==> (#[trigger] entry_topic(a[i])) is Some {
                    Option::Some(
                        PipelineMessageData {
                            name: n,
                            pipeline: Seq::new(
                                a.len(),
                                |i: int| PipelineEntryData {
                                    topic: entry_topic(a[i])->Some_0,
                                },
                            ),
                        },
                    )
                } else {
                    Option::None
                }
            },
            _ => Option::None,
        },
        _ => Option::None,
    }
}

/// A written pipeline parses back to itself.
pub proof fn lemma_pipeline_round_trip(p: PipelineMessageData)
    ensures
        parse_pipeline(pipeline_json(p)) == Option::Some(p),
{
    reveal_strlit("name");
    reveal_strlit("pipeline");
    reveal_strlit("topic");
    let m = pipeline_json(p)->Obj_0;
    assert(ascii_bytes("name"@).len() == 4);
    assert(ascii_bytes("pipeline"@).len() == 8);
    crate::json::lemma_find_key_first(m, ascii_bytes("name"@), 0);
    crate::json::lemma_find_key_first(m, ascii_bytes("pipeline"@), 1);
    let a = Seq::new(p.pipeline.len(), |i: int| entry_json(p.pipeline[i]));
    assert forall|i: int| 0 <= i < a.len() implies (#[trigger] entry_topic(a[i]))
        == Option::Some(p.pipeline[i].topic) by {
        let em = entry_json(p.pipeline[i])->Obj_0;
        assert(em[0].0 == ascii_bytes("topic"@));
        crate::json::lemma_find_key_first(em, ascii_bytes("topic"@), 0);
    }
    match parse_pipeline(pipeline_json(p)) {
        Option::Some(q) => {
            assert(q.pipeline =~= p.pipeline);
        },
        Option::None => {
            assert(false);
        },
    }
}

/// Reads a pipeline out of a JSON value, exactly when `parse_pipeline`
/// accepts it.
pub fn pipeline_of_value(params: &JsonValue) -> (r: Option<PipelineMessage>)
    ensures
        match parse_pipeline(params@) {
            Option::Some(p) => r matches Some(q) && q@ == p,
            Option::None => r is None,
        },
{
    proof {
        reveal_strlit("name");
        reveal_strlit("pipeline");
        reveal_strlit("topic");
    }
    let ghost gj = params@;
    match params {
        JsonValue::Obj(members) => {
            let name = match get_str_field(members, &str_bytes("name")) {
                Some(n) => n,
                None => {
                    return None;
                },
            };
            let mut idx: usize = 0;
            let pkey = str_bytes("pipeline");
            let mut found = false;
            while idx < members.len()
                invariant
                    idx <= members@.len(),
                    !found ==> forall|k: int| 0 <= k < idx ==> members@[k].0@ != pkey@,
                    found ==> idx < members@.len() && members@[idx as int].0@ == pkey@ && forall|
                        k: int,
                    | 0 <= k < idx ==> members@[k].0@ != pkey@,
                    pkey@ == ascii_bytes("pipeline"@),
                ensures
                    idx <= members@.len(),
                    pkey@ == ascii_bytes("pipeline"@),
                    forall|k: int| 0 <= k < idx ==> members@[k].0@ != pkey@,
                    found ==> idx < members@.len() && members@[idx as int].0@ == pkey@,
                    !found ==> idx == members@.len(),
                decreases members@.len() - idx + (if found {
                    0int
                } else {
                    1int
                }),
            {
                if found {
                    break ;
                }
                if eq_bytes(&members[idx].0, &pkey) {
                    found = true;
                } else {
                    idx = idx + 1;
                }
            }
            proof {
                lemma_view_json_members(members@);
                let vm = view_json_members(members@);
                if found {
                    crate::json::lemma_find_key_first(vm, pkey@, idx as int);
                } else {
                    crate::json::lemma_find_key_first(vm, pkey@, idx as int);
                }
            }
            if !found {
                proof {
                    assert(gj == JsonData::Obj(view_json_members(members@)));
                    assert(parse_pipeline(gj) is None);
                }
                return None;
            }
            let ghost vmg = view_json_members(members@);
            proof {
                assert(find_key(vmg, ascii_bytes("pipeline"@)) == Option::Some(
                    vmg[idx as int].1,
                ));
                assert(gj == JsonData::Obj(vmg));
            }
            match &members[idx].1 {
                JsonValue::Arr(elems) => {
                    let ghost a = view_json_seq(elems@);
                    proof {
                        lemma_view_json_seq(elems@);
                        assert(vmg[idx as int].1 == JsonData::Arr(a));
                    }
                    let mut entries: Vec<PipelineEntry> = Vec::new();
                    let mut i: usize = 0;
                    while i < elems.len()
                        invariant
                            i <= elems@.len(),
                            a == view_json_seq(elems@),
                            a.len() == elems@.len(),
                            forall|k: int| 0 <= k < a.len() ==> a[k] == elems@[k]@,
                            entries@.len() == i,
                            forall|k: int|
                                0 <= k < i ==> ((#[trigger] entry_topic(a[k])) matches Some(t)
                                    && entries@[k].topic@ == t),
                            gj == params@,
                            gj == JsonData::Obj(vmg),
                            find_str_key(vmg, ascii_bytes("name"@)) == Option::Some(name@),
                            find_key(vmg, ascii_bytes("pipeline"@)) == Option::Some(
                                JsonData::Arr(a),
                            ),
                        decreases elems@.len() - i,
                    {
                        proof {
                            reveal_strlit("topic");
                        }
                        match &elems[i] {
                            JsonValue::Obj(ems) => {
                                let t = match get_str_field(ems, &str_bytes("topic")) {
                                    Some(t) => t,
                                    None => {
                                        proof {
                                            assert(a[i as int] == JsonData::Obj(
                                                view_json_members(ems@),
                                            ));
                                            assert(entry_topic(a[i as int]) is None);
                                            assert(parse_pipeline(gj) is None);
                                        }
                                        return None;
                                    },
                                };
                                proof {
                                    assert(a[i as int] == JsonData::Obj(view_json_members(ems@)));
                                    assert(entry_topic(a[i as int]) matches Option::Some(tt)
                                        && t@ == tt);
                                }
                                entries.push(PipelineEntry { topic: t });
                            },
                            _ => {
                                proof {
                                    assert(entry_topic(a[i as int]) is None);
                                    assert(parse_pipeline(gj) is None);
                                }
                                return None;
                            },
                        }
                        i = i + 1;
                    }
                    let pl = PipelineMessage { name, pipeline: entries };
                    proof {
                        match parse_pipeline(gj) {
                            Option::Some(p) => {
                                assert(pl@.pipeline =~= p.pipeline);
                                assert(pl@ == p);
                            },
                            Option::None => {
                                assert(false);
                            },
                        }
                    }
                    Some(pl)
                },
                _ => {
                    proof {
                        assert(parse_pipeline(gj) is None);
                    }
                    None
                },
            }
        },
        _ => None,
    }
}

/// The file payload for a saved pipeline: its name and the JSON text to
/// write under `pipelines/<name>.json`, or nothing when the parameters do
/// not form a pipeline.
pub fn add_to_pipelines(params: &JsonValue) -> (r: Option<(Vec<u8>, Vec<u8>)>)
    ensures
        match parse_pipeline(params@) {
            Option::Some(p) => r matches Some(q) && q.0@ == p.name && q.1@ == ser_json(
                pipeline_json(p),
            ),
            Option::None => r is None,
        },
{
    match pipeline_of_value(params) {
        Some(pl) => {
            let content = encode_value(&pipeline_value(&pl));
            let filename = pl.name;
            Some((filename, content))
        },
        None => None,
    }
}

/// A command's file nests one level.
pub proof fn lemma_command_depth(c: CommandMessageData)
    ensures
        jdepth(command_json(c)) == 1,
{
    lemma_jdepth_members_bound(command_json(c)->Obj_0, 0);
}

/// A pipeline's file nests at most three levels.
pub proof fn lemma_pipeline_depth(p: PipelineMessageData)
    ensures
        jdepth(pipeline_json(p)) <= 3,
{
    let entries = Seq::new(p.pipeline.len(), |i: int| entry_json(p.pipeline[i]));
    assert forall|i: int| 0 <= i < entries.len() implies jdepth(#[trigger] entries[i]) <= 1 by {
        lemma_jdepth_members_bound(entry_json(p.pipeline[i])->Obj_0, 0);
    }
    lemma_jdepth_seq_bound(entries, 1);
    let m = pipeline_json(p)->Obj_0;
    assert forall|i: int| 0 <= i < m.len() implies jdepth((#[trigger] m[i]).1) <= 2 by {
        if i == 1 {
            assert(m[1].1 == JsonData::Arr(entries));
        }
    }
    lemma_jdepth_members_bound(m, 2);
}

/// Reads one saved command back from its file contents; the contents the
/// writer produces for a command read back as exactly that command.
pub fn load_command(content: &Vec<u8>) -> (r: Option<CommandMessage>)
    ensures
        forall|c: CommandMessageData|
            content@ == ser_json(#[trigger] command_json(c)) ==> (r matches Some(v) && v@ == c),
{
    let ghost gc = content@;
    proof {
        reveal_strlit("name");
        reveal_strlit("topic");
        reveal_strlit("payload");
        assert forall|c: CommandMessageData|
            gc == ser_json(command_json(c)) implies jdepth(command_json(c)) < JSON_DEPTH_LIMIT
            && parse_command(command_json(c)) == Option::Some(c) by {
            lemma_command_depth(c);
            lemma_command_round_trip(c);
        }
    }
    let decoded = match decode_json(content) {
        Some(v) => v,
        None => {
            return None;
        },
    };
    let ghost dv = decoded@;
    match decoded {
        JsonValue::Obj(members) => {
            let name = match get_str_field(&members, &str_bytes("name")) {
                Some(n) => n,
                None => {
                    return None;
                },
            };
            let topic = match get_str_field(&members, &str_bytes("topic")) {
                Some(t) => t,
                None => {
                    return None;
                },
            };
            let payload = match get_str_field(&members, &str_bytes("payload")) {
                Some(p) => p,
                None => {
                    return None;
                },
            };
            Some(CommandMessage { name, topic, payload })
        },
        _ => None,
    }
}

/// Reads one saved pipeline back from its file contents; the contents the
/// writer produces for a pipeline read back as exactly that pipeline.
pub fn load_pipeline(content: &Vec<u8>) -> (r: Option<PipelineMessage>)
    ensures
        forall|p: PipelineMessageData|
            content@ == ser_json(#[trigger] pipeline_json(p)) ==> (r matches Some(v) && v@ == p),
{
    let ghost gc = content@;
    proof {
        assert forall|p: PipelineMessageData|
            gc == ser_json(pipeline_json(p)) implies jdepth(pipeline_json(p)) < JSON_DEPTH_LIMIT
            && parse_pipeline(pipeline_json(p)) == Option::Some(p) by {
            lemma_pipeline_depth(p);
            lemma_pipeline_round_trip(p);
        }
    }
    let decoded = match decode_json(content) {
        Some(v) => v,
        None => {
            return None;
        },
    };
    pipeline_of_value(&decoded)
}

/// The file name a saved entry lives under: `<name>.json`.
pub fn json_file_name(name: &Vec<u8>) -> (r: Vec<u8>)
    ensures
        r@ == name@ + ascii_bytes(".json"@),
{
    proof {
        reveal_strlit(".json");
    }
    let mut out = name.clone();
    let suffix = str_bytes(".json");
    let mut i: usize = 0;
    while i < suffix.len()
        invariant
            i <= suffix@.len(),
            suffix@ == ascii_bytes(".json"@),
            out@ == name@ + suffix@.take(i as int),
        decreases suffix@.len() - i,
    {
        out.push(suffix[i]);
        proof {
            assert(out@ =~= name@ + suffix@.take(i as int + 1));
        }
        i = i + 1;
    }
    proof {
        assert(suffix@.take(suffix@.len() as int) =~= suffix@);
    }
    out
}

} // verus!

//! The JSON-RPC-shaped envelope exchanged with peers.
//!
//! Every message on the peer wire, in either direction, is one JSON object
//! `{"jsonrpc": "2.0", "method": ..., "params": ...}` in a text frame.
//! Serialization is canonical, and deserializing a serialized envelope gives
//! the envelope back.

use vstd::prelude::*;

use crate::json::ascii_bytes;
use crate::json::find_key;
use crate::json::find_key_at;
use crate::json::jdepth;
use crate::json::jdepth_members;
use crate::json::ser_json;
use crate::json::str_bytes;
use crate::json::take_key;
use crate::json::view_json_members;
use crate::json::decode_json;
use crate::json::encode_value;
use crate::json::lemma_view_json_members;
use crate::json::JsonData;
use crate::json::JsonValue;
use crate::json::JSON_DEPTH_LIMIT;

verus! {

/// One wire message: a notification in either direction. Replies are sent as
/// fresh notifications, so no request id is carried.
pub struct JsonRpcNotification {
    pub jsonrpc: Vec<u8>,
    pub method: Vec<u8>,
    pub params: JsonValue,
}

/// The mathematical value of an envelope.
pub struct JsonRpcData {
    pub jsonrpc: Seq<u8>,
    pub method: Seq<u8>,
    pub params: JsonData,
}

impl View for JsonRpcNotification {
    type V = JsonRpcData;

    open spec fn view(&self) -> JsonRpcData {
        JsonRpcData { jsonrpc: self.jsonrpc@, method: self.method@, params: self.params@ }
    }
}

/// The JSON object an envelope stands for.
pub open spec fn env_json(e: JsonRpcData) -> JsonData {
    JsonData::Obj(
        seq![
            (ascii_bytes("jsonrpc"@), JsonData::Str(e.jsonrpc)),
            (ascii_bytes("method"@), JsonData::Str(e.method)),
            (ascii_bytes("params"@), e.params),
        ],
    )
}

/// The canonical wire text of an envelope, as bytes.
pub open spec fn ser_env(e: JsonRpcData) -> Seq<u8> {
    ser_json(env_json(e))
}

/// An envelope nests one level deeper than its parameters.
pub proof fn lemma_env_depth(e: JsonRpcData)
    ensures
        jdepth(env_json(e)) == 1 + jdepth(e.params),
{
    let m = env_json(e)->Obj_0;
    assert(jdepth_members(m.subrange(2, 3)) == jdepth(e.params)) by {
        assert(m.subrange(2, 3)[0] == m[2]);
        assert(m.subrange(2, 3).subrange(1, 1) =~= Seq::<(Seq<u8>, JsonData)>::empty());
        assert(jdepth_members(Seq::<(Seq<u8>, JsonData)>::empty()) == 0);
    }
    assert(jdepth_members(m.subrange(1, 3)) == jdepth(e.params)) by {
        assert(m.subrange(1, 3)[0] == m[1]);
        assert(jdepth(m[1].1) == 0);
        assert(m.subrange(1, 3).subrange(1, 2) =~= m.subrange(2, 3));
    }
    assert(jdepth_members(m) == jdepth(e.params)) by {
        assert(m[0].1 == JsonData::Str(e.jsonrpc));
        assert(jdepth(m[0].1) == 0);
    }
}

/// Builds a notification carrying the protocol version `"2.0"`.
pub fn notification(method: Vec<u8>, params: JsonValue) -> (r: JsonRpcNotification)
    ensures
        r@ == (JsonRpcData { jsonrpc: ascii_bytes("2.0"@), method: method@, params: params@ }),
{
    proof {
        reveal_strlit("2.0");
    }
    let jsonrpc = str_bytes("2.0");
    JsonRpcNotification { jsonrpc, method, params }
}

/// Encodes an envelope as its canonical wire text.
pub fn serialize_json_rpc(e: &JsonRpcNotification) -> (r: Vec<u8>)
    ensures
        r@ == ser_env(e@),
{
    let mut members: Vec<(Vec<u8>, JsonValue)> = Vec::new();
    proof {
        reveal_strlit("jsonrpc");
        reveal_strlit("method");
        reveal_strlit("params");
    }
    let jkey = str_bytes("jsonrpc");
    let mkey = str_bytes("method");
    let pkey = str_bytes("params");
    let jv = e.jsonrpc.clone();
    let mv = e.method.clone();
    proof {
        assert(jv@ =~= e.jsonrpc@);
        assert(mv@ =~= e.method@);
    }
    members.push((jkey, JsonValue::Str(jv)));
    members.push((mkey, JsonValue::Str(mv)));
    members.push((pkey, clone_json(&e.params)));
    let obj = JsonValue::Obj(members);
    proof {
        lemma_view_json_members(obj->Obj_0@);
        assert(view_json_members(obj->Obj_0@) =~= env_json(e@)->Obj_0);
        assert(obj@ == env_json(e@));
    }
    encode_value(&obj)
}

/// Copies a JSON value.
pub fn clone_json(v: &JsonValue) -> (r: JsonValue)
    ensures
        r@ == v@,
    decreases v,
{
    match v {
        JsonValue::Null => JsonValue::Null,
        JsonValue::Bool(b) => JsonValue::Bool(*b),
        JsonValue::Int(n) => JsonValue::Int(*n),
        JsonValue::Str(s) => {
            let c = s.clone();
            proof {
                assert(c@ =~= s@);
            }
            JsonValue::Str(c)
        },
        JsonValue::Arr(elems) => {
            let mut out: Vec<JsonValue> = Vec::new();
            let mut i: usize = 0;
            while i < elems.len()
                invariant
                    i <= elems@.len(),
                    *v is Arr,
                    *elems == v->Arr_0,
                    out@.len() == i,
                    forall|k: int| 0 <= k < i ==> out@[k]@ == elems@[k]@,
                decreases elems@.len() - i,
            {
                proof {
                    assert(decreases_to!(*v => v->Arr_0));
                    assert(decreases_to!(*elems => elems[i as int]));
                    assert(decreases_to!(*v => elems[i as int]));
                }
                let c = clone_json(&elems[i]);
                out.push(c);
                i = i + 1;
            }
            let r = JsonValue::Arr(out);
            proof {
                crate::json::lemma_view_json_seq(r->Arr_0@);
                crate::json::lemma_view_json_seq(v->Arr_0@);
                assert(crate::json::view_json_seq(r->Arr_0@) =~= crate::json::view_json_seq(
                    v->Arr_0@,
                ));
            }
            r
        },
        JsonValue::Obj(members) => {
            let mut out: Vec<(Vec<u8>, JsonValue)> = Vec::new();
            let mut i: usize = 0;
            while i < members.len()
                invariant
                    i <= members@.len(),
                    *v is Obj,
                    *members == v->Obj_0,
                    out@.len() == i,
                    forall|k: int|
                        0 <= k < i ==> out@[k].0@ == members@[k].0@ && out@[k].1@
                            == members@[k].1@,
                decreases members@.len() - i,
            {
                proof {
                    assert(decreases_to!(*v => v->Obj_0));
                    assert(decreases_to!(*members => members[i as int]));
                    assert(decreases_to!(members[i as int] => members[i as int].1));
                    assert(decreases_to!(*v => members[i as int].1));
                }
                let ck = members[i].0.clone();
                let cv = clone_json(&members[i].1);
                proof {
                    assert(ck@ =~= members@[i as int].0@);
                }
                out.push((ck, cv));
                i = i + 1;
            }
            let r = JsonValue::Obj(out);
            proof {
                lemma_view_json_members(r->Obj_0@);
                lemma_view_json_members(v->Obj_0@);
                assert(view_json_members(r->Obj_0@) =~= view_json_members(v->Obj_0@));
            }
            r
        },
    }
}

/// Why an inbound frame was rejected.
#[derive(Debug)]
pub enum JsonRpcError {
    DeserializationError,
}

/// Decodes one inbound text frame into an envelope. Fails when the frame is
/// not well-formed JSON, is not an object, or lacks the `jsonrpc`, `method`
/// or `params` field; on a serialized envelope it returns that envelope.
pub fn deserialize_json_rpc(text: &Vec<u8>) -> (r: Result<JsonRpcNotification, JsonRpcError>)
    ensures
        forall|e: JsonRpcData|
            text@ == #[trigger] ser_env(e) && jdepth(e.params) + 1 < JSON_DEPTH_LIMIT ==> (
            r matches Ok(n) && n@ == e),
{
    let ghost gt = text@;
    proof {
        assert forall|e: JsonRpcData|
            gt == ser_env(e) && jdepth(e.params) + 1 < JSON_DEPTH_LIMIT implies gt == ser_json(
            env_json(e),
        ) && jdepth(env_json(e)) < JSON_DEPTH_LIMIT by {
            lemma_env_depth(e);
        }
    }
    let decoded = match decode_json(text) {
        None => {
            return Err(JsonRpcError::DeserializationError);
        },
        Some(v) => v,
    };
    let ghost dv = decoded@;
    match decoded {
        JsonValue::Obj(mut members) => {
            let ghost vm0 = view_json_members(members@);
            proof {
                reveal_strlit("jsonrpc");
                reveal_strlit("method");
                reveal_strlit("params");
            }
            let jkey = str_bytes("jsonrpc");
            let mkey = str_bytes("method");
            let pkey = str_bytes("params");
            proof {
                assert forall|e: JsonRpcData|
                    ser_env(e) == gt && jdepth(e.params) + 1 < JSON_DEPTH_LIMIT implies vm0
                    == env_json(e)->Obj_0 && find_key(vm0, jkey@) == Option::Some(
                    JsonData::Str(e.jsonrpc),
                ) && find_key_at(vm0, jkey@) == 0 by {
                    lemma_env_depth(e);
                    assert(dv == env_json(e));
                    assert(vm0[0].0 == ascii_bytes("jsonrpc"@));
                    assert(jkey@ =~= ascii_bytes("jsonrpc"@));
                }
            }
            let ghost raw0 = members@;
            let r1 = take_key(&mut members, &jkey);
            let ghost vm1 = view_json_members(members@);
            proof {
                assert forall|e: JsonRpcData|
                    ser_env(e) == gt && jdepth(e.params) + 1 < JSON_DEPTH_LIMIT implies (
                r1 matches Some(v) && v@ == JsonData::Str(e.jsonrpc)) && vm1 == env_json(
                    e,
                )->Obj_0.skip(1) && find_key(vm1, mkey@) == Option::Some(JsonData::Str(e.method))
                    && find_key_at(vm1, mkey@) == 0 by {
                    let m = env_json(e)->Obj_0;
                    crate::json::lemma_view_json_members(members@);
                    crate::json::lemma_view_json_members(raw0);
                    assert(members@ == raw0.remove(0));
                    assert(vm1 =~= m.skip(1));
                    assert(vm1[0].0 == ascii_bytes("method"@));
                    assert(mkey@ =~= ascii_bytes("method"@));
                }
            }
            let jsonrpc = match r1 {
                Some(JsonValue::Str(b)) => b,
                _ => {
                    return Err(JsonRpcError::DeserializationError);
                },
            };
            let ghost raw1 = members@;
            let r2 = take_key(&mut members, &mkey);
            let ghost vm2 = view_json_members(members@);
            proof {
                assert forall|e: JsonRpcData|
                    ser_env(e) == gt && jdepth(e.params) + 1 < JSON_DEPTH_LIMIT implies (
                r2 matches Some(v) && v@ == JsonData::Str(e.method)) && vm2 == env_json(
                    e,
                )->Obj_0.skip(2) && find_key(vm2, pkey@) == Option::Some(e.params) by {
                    let m = env_json(e)->Obj_0;
                    crate::json::lemma_view_json_members(members@);
                    crate::json::lemma_view_json_members(raw1);
                    assert(members@ == raw1.remove(0));
                    assert(vm2 =~= m.skip(2));
                    assert(vm2[0].0 == ascii_bytes("params"@));
                    assert(pkey@ =~= ascii_bytes("params"@));
                }
            }
            let method = match r2 {
                Some(JsonValue::Str(b)) => b,
                _ => {
                    return Err(JsonRpcError::DeserializationError);
                },
            };
            let r3 = take_key(&mut members, &pkey);
            let params = match r3 {
                Some(v) => v,
                None => {
                    return Err(JsonRpcError::DeserializationError);
                },
            };
            let out = JsonRpcNotification { jsonrpc, method, params };
            Ok(out)
        },
        _ => {
            proof {
                assert forall|e: JsonRpcData|
                    ser_env(e) == gt && jdepth(e.params) + 1 < JSON_DEPTH_LIMIT implies false by {
                    assert(dv == env_json(e));
                }
            }
            Err(JsonRpcError::DeserializationError)
        },
    }
}

} // verus!

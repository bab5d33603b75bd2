//! JSON values and their canonical serialization.
//!
//! The peer wire and the configuration files both carry JSON text. A value is
//! modelled as a tree of byte strings, unsigned integers, booleans, arrays and
//! objects; text is kept as raw bytes, so any byte string round-trips through
//! the codec. `ser_json` is the canonical serialization (no whitespace,
//! double quotes and backslashes escaped, control bytes written as `\u00XX`),
//! and the encoder is proved to produce exactly that byte sequence.

use vstd::prelude::*;
use vstd::string::StrSliceExecFns;
use vstd::string::StringSliceAdditionalSpecFns;

verus! {

broadcast use vstd::std_specs::vec::axiom_vec_index_decreases, vstd::std_specs::vec::axiom_vec_decreases_to_view;

/// A JSON value. Strings are byte strings (the UTF-8 of their text);
/// numbers are unsigned integers, which is all the peer protocol uses. An
/// object is a list of `(key, value)` members, kept in order.
pub enum JsonValue {
    Null,
    Bool(bool),
    Int(u64),
    Str(Vec<u8>),
    Arr(Vec<JsonValue>),
    Obj(Vec<(Vec<u8>, JsonValue)>),
}

/// The mathematical model of a JSON value.
pub enum JsonData {
    Null,
    Bool(bool),
    Int(u64),
    Str(Seq<u8>),
    Arr(Seq<JsonData>),
    Obj(Seq<(Seq<u8>, JsonData)>),
}

/// The mathematical value of a `JsonValue`.
pub open spec fn view_json(v: JsonValue) -> JsonData
    decreases v,
{
    match v {
        JsonValue::Null => JsonData::Null,
        JsonValue::Bool(b) => JsonData::Bool(b),
        JsonValue::Int(n) => JsonData::Int(n),
        JsonValue::Str(s) => JsonData::Str(s@),
        JsonValue::Arr(a) => {
            proof {
                assert(decreases_to!(v => a));
                assert(decreases_to!(a => a@));
                assert(decreases_to!(v => a@));
            }
            JsonData::Arr(view_json_seq(a@))
        },
        JsonValue::Obj(m) => {
            proof {
                assert(decreases_to!(v => m));
                assert(decreases_to!(m => m@));
                assert(decreases_to!(v => m@));
            }
            JsonData::Obj(view_json_members(m@))
        },
    }
}

/// The mathematical values of a sequence of `JsonValue`s, element by element.
pub open spec fn view_json_seq(s: Seq<JsonValue>) -> Seq<JsonData>
    decreases s,
{
    if s.len() == 0 {
        Seq::empty()
    } else {
        seq![view_json(s[0])] + view_json_seq(s.subrange(1, s.len() as int))
    }
}

/// The mathematical values of a sequence of object members.
pub open spec fn view_json_members(s: Seq<(Vec<u8>, JsonValue)>) -> Seq<(Seq<u8>, JsonData)>
    decreases s,
{
    if s.len() == 0 {
        Seq::empty()
    } else {
        seq![(s[0].0@, view_json(s[0].1))] + view_json_members(s.subrange(1, s.len() as int))
    }
}

/// `view_json_seq` maps `view_json` over the sequence, index by index.
pub broadcast proof fn lemma_view_json_seq(s: Seq<JsonValue>)
    ensures
        (#[trigger] view_json_seq(s)).len() == s.len(),
        forall|i: int| 0 <= i < s.len() ==> view_json_seq(s)[i] == view_json(s[i]),
    decreases s.len(),
{
    if s.len() > 0 {
        lemma_view_json_seq(s.subrange(1, s.len() as int));
    }
}

/// `view_json_members` maps key and value views over the members, index by index.
pub broadcast proof fn lemma_view_json_members(s: Seq<(Vec<u8>, JsonValue)>)
    ensures
        (#[trigger] view_json_members(s)).len() == s.len(),
        forall|i: int|
            0 <= i < s.len() ==> view_json_members(s)[i] == (s[i].0@, view_json(s[i].1)),
    decreases s.len(),
{
    if s.len() > 0 {
        lemma_view_json_members(s.subrange(1, s.len() as int));
    }
}

impl View for JsonValue {
    type V = JsonData;

    open spec fn view(&self) -> JsonData {
        view_json(*self)
    }
}

/// Decimal digits of `n`, most significant first.
pub open spec fn dec_of(n: nat) -> Seq<u8>
    decreases n,
{
    if n < 10 {
        seq![(48 + n) as u8]
    } else {
        dec_of(n / 10).push((48 + n % 10) as u8)
    }
}

/// Lower-case hexadecimal digit for `n < 16`.
pub open spec fn hex_digit(n: u8) -> u8 {
    if n < 10 {
        (48 + n) as u8
    } else {
        (87 + n) as u8
    }
}

/// Serialization of one byte inside a JSON string: `"` and `\` get a
/// backslash escape, control bytes become `\u00XX`, all else is verbatim.
pub open spec fn esc_byte(b: u8) -> Seq<u8> {
    if b == 34 {
        seq![92u8, 34u8]
    } else if b == 92 {
        seq![92u8, 92u8]
    } else if b < 32 {
        seq![92u8, 117u8, 48u8, 48u8, hex_digit(b / 16), hex_digit(b % 16)]
    } else {
        seq![b]
    }
}

/// Serialization of the bytes of a JSON string, without the quotes.
pub open spec fn ser_str_body(s: Seq<u8>) -> Seq<u8>
    decreases s.len(),
{
    if s.len() == 0 {
        Seq::empty()
    } else {
        esc_byte(s[0]) + ser_str_body(s.subrange(1, s.len() as int))
    }
}

/// Serialization of a JSON string, quotes included.
pub open spec fn ser_string(s: Seq<u8>) -> Seq<u8> {
    seq![34u8] + ser_str_body(s) + seq![34u8]
}

/// Canonical serialization of a JSON value: no whitespace, object members in
/// the order given.
pub open spec fn ser_json(j: JsonData) -> Seq<u8>
    decreases j,
{
    match j {
        JsonData::Null => seq![110u8, 117u8, 108u8, 108u8],
        JsonData::Bool(b) => if b {
            seq![116u8, 114u8, 117u8, 101u8]
        } else {
            seq![102u8, 97u8, 108u8, 115u8, 101u8]
        },
        JsonData::Int(n) => dec_of(n as nat),
        JsonData::Str(s) => ser_string(s),
        JsonData::Arr(a) => seq![91u8] + ser_elems(a) + seq![93u8],
        JsonData::Obj(m) => seq![123u8] + ser_members(m) + seq![125u8],
    }
}

/// Comma-separated serialization of array elements.
pub open spec fn ser_elems(a: Seq<JsonData>) -> Seq<u8>
    decreases a,
{
    if a.len() == 0 {
        Seq::empty()
    } else if a.len() == 1 {
        ser_json(a[0])
    } else {
        ser_json(a[0]) + seq![44u8] + ser_elems(a.subrange(1, a.len() as int))
    }
}

/// Comma-separated serialization of object members.
pub open spec fn ser_members(m: Seq<(Seq<u8>, JsonData)>) -> Seq<u8>
    decreases m,
{
    if m.len() == 0 {
        Seq::empty()
    } else if m.len() == 1 {
        ser_member(m[0])
    } else {
        ser_member(m[0]) + seq![44u8] + ser_members(m.subrange(1, m.len() as int))
    }
}

pub open spec fn ser_member(m: (Seq<u8>, JsonData)) -> Seq<u8>
    decreases m,
{
    ser_string(m.0) + seq![58u8] + ser_json(m.1)
}

/// Emits the decimal digits of `n`, most significant first.
pub fn encode_u64(n: u64, out: &mut Vec<u8>)
    ensures
        final(out)@ == old(out)@ + dec_of(n as nat),
    decreases n,
{
    if n < 10 {
        out.push(48 + n as u8);
    } else {
        encode_u64(n / 10, out);
        out.push(48 + (n % 10) as u8);
    }
    assert(out@ =~= old(out)@ + dec_of(n as nat));
}

fn push_escaped(b: u8, out: &mut Vec<u8>)
    ensures
        final(out)@ == old(out)@ + esc_byte(b),
{
    if b == 34 {
        out.push(92);
        out.push(34);
    } else if b == 92 {
        out.push(92);
        out.push(92);
    } else if b < 32 {
        out.push(92);
        out.push(117);
        out.push(48);
        out.push(48);
        let hi = b / 16;
        let lo = b % 16;
        out.push(if hi < 10 { 48 + hi } else { 87 + hi });
        out.push(if lo < 10 { 48 + lo } else { 87 + lo });
    } else {
        out.push(b);
    }
    assert(out@ =~= old(out)@ + esc_byte(b));
}

proof fn lemma_ser_str_body_concat(a: Seq<u8>, b: Seq<u8>)
    ensures
        ser_str_body(a + b) == ser_str_body(a) + ser_str_body(b),
    decreases a.len(),
{
    if a.len() == 0 {
        assert(a + b =~= b);
        assert(ser_str_body(a) + ser_str_body(b) =~= ser_str_body(b));
    } else {
        assert((a + b).subrange(1, (a + b).len() as int) =~= a.subrange(1, a.len() as int) + b);
        lemma_ser_str_body_concat(a.subrange(1, a.len() as int), b);
        assert(ser_str_body(a + b) =~= ser_str_body(a) + ser_str_body(b));
    }
}

proof fn lemma_ser_str_body_snoc(s: Seq<u8>, i: int)
    requires
        0 <= i < s.len(),
    ensures
        ser_str_body(s.take(i + 1)) == ser_str_body(s.take(i)) + esc_byte(s[i]),
{
    assert(s.take(i + 1) =~= s.take(i) + seq![s[i]]);
    lemma_ser_str_body_concat(s.take(i), seq![s[i]]);
    assert(ser_str_body(seq![s[i]]) =~= esc_byte(s[i])) by {
        assert(seq![s[i]].subrange(1, 1) =~= Seq::<u8>::empty());
        assert(ser_str_body(Seq::<u8>::empty()) == Seq::<u8>::empty());
        assert(esc_byte(s[i]) + Seq::<u8>::empty() =~= esc_byte(s[i]));
    }
}

/// Emits `s` as a JSON string, quotes and escapes included.
pub fn encode_string(s: &Vec<u8>, out: &mut Vec<u8>)
    ensures
        final(out)@ == old(out)@ + ser_string(s@),
{
    out.push(34);
    let mut i: usize = 0;
    while i < s.len()
        invariant
            i <= s@.len(),
            out@ == old(out)@ + seq![34u8] + ser_str_body(s@.take(i as int)),
        decreases s@.len() - i,
    {
        push_escaped(s[i], out);
        proof {
            lemma_ser_str_body_snoc(s@, i as int);
        }
        i = i + 1;
    }
    out.push(34);
    proof {
        assert(s@.take(s@.len() as int) =~= s@);
        assert(out@ =~= old(out)@ + ser_string(s@));
    }
}

proof fn lemma_ser_elems_snoc(a: Seq<JsonData>, i: int)
    requires
        0 <= i < a.len(),
    ensures
        ser_elems(a.take(i + 1)) == if i == 0 {
            ser_json(a[0])
        } else {
            ser_elems(a.take(i)) + seq![44u8] + ser_json(a[i])
        },
    decreases i,
{
    if i == 0 {
        assert(a.take(1) =~= seq![a[0]]);
    } else {
        let p = a.take(i + 1);
        assert(p.len() >= 2);
        assert(p.subrange(1, p.len() as int) =~= a.subrange(1, a.len() as int).take(i));
        assert(a.take(i).subrange(1, i) =~= a.subrange(1, a.len() as int).take(i - 1));
        lemma_ser_elems_snoc(a.subrange(1, a.len() as int), i - 1);
        assert(a.subrange(1, a.len() as int)[i - 1] == a[i]);
        if i == 1 {
            assert(a.take(1) =~= seq![a[0]]);
            assert(ser_elems(p) =~= ser_elems(a.take(i)) + seq![44u8] + ser_json(a[i]));
        } else {
            assert(a.take(i)[0] == a[0]);
            assert(ser_elems(p) =~= ser_elems(a.take(i)) + seq![44u8] + ser_json(a[i]));
        }
    }
}

proof fn lemma_ser_members_snoc(m: Seq<(Seq<u8>, JsonData)>, i: int)
    requires
        0 <= i < m.len(),
    ensures
        ser_members(m.take(i + 1)) == if i == 0 {
            ser_member(m[0])
        } else {
            ser_members(m.take(i)) + seq![44u8] + ser_member(m[i])
        },
    decreases i,
{
    if i == 0 {
        assert(m.take(1) =~= seq![m[0]]);
    } else {
        let p = m.take(i + 1);
        assert(p.len() >= 2);
        assert(p.subrange(1, p.len() as int) =~= m.subrange(1, m.len() as int).take(i));
        assert(m.take(i).subrange(1, i) =~= m.subrange(1, m.len() as int).take(i - 1));
        lemma_ser_members_snoc(m.subrange(1, m.len() as int), i - 1);
        assert(m.subrange(1, m.len() as int)[i - 1] == m[i]);
        if i == 1 {
            assert(m.take(1) =~= seq![m[0]]);
            assert(ser_members(p) =~= ser_members(m.take(i)) + seq![44u8] + ser_member(m[i]));
        } else {
            assert(m.take(i)[0] == m[0]);
            assert(ser_members(p) =~= ser_members(m.take(i)) + seq![44u8] + ser_member(m[i]));
        }
    }
}

/// Appends the canonical serialization of `v` to `out`.
pub fn encode_json(v: &JsonValue, out: &mut Vec<u8>)
    ensures
        final(out)@ == old(out)@ + ser_json(v@),
    decreases v,
{
    match v {
        JsonValue::Null => {
            out.push(110);
            out.push(117);
            out.push(108);
            out.push(108);
            assert(out@ =~= old(out)@ + ser_json(v@));
        },
        JsonValue::Bool(b) => {
            if *b {
                out.push(116);
                out.push(114);
                out.push(117);
                out.push(101);
            } else {
                out.push(102);
                out.push(97);
                out.push(108);
                out.push(115);
                out.push(101);
            }
            assert(out@ =~= old(out)@ + ser_json(v@));
        },
        JsonValue::Int(n) => {
            encode_u64(*n, out);
        },
        JsonValue::Str(s) => {
            encode_string(s, out);
        },
        JsonValue::Arr(elems) => {
            let ghost va = v@->Arr_0;
            proof {
                lemma_view_json_seq(elems@);
            }
            out.push(91);
            let mut i: usize = 0;
            while i < elems.len()
                invariant
                    i <= elems@.len(),
                    *v is Arr,
                    *elems == v->Arr_0,
                    va == v@->Arr_0,
                    va.len() == elems@.len(),
                    forall|k: int| 0 <= k < va.len() ==> va[k] == view_json(elems@[k]),
                    out@ == old(out)@ + seq![91u8] + ser_elems(va.take(i as int)),
                decreases elems@.len() - i,
            {
                if i > 0 {
                    out.push(44);
                }
                proof {
                    assert(decreases_to!(*v => v->Arr_0));
                    assert(decreases_to!(*elems => elems[i as int]));
                    assert(decreases_to!(*v => elems[i as int]));
                }
                encode_json(&elems[i], out);
                proof {
                    lemma_ser_elems_snoc(va, i as int);
                }
                i = i + 1;
                assert(out@ =~= old(out)@ + seq![91u8] + ser_elems(va.take(i as int)));
            }
            out.push(93);
            proof {
                assert(va.take(va.len() as int) =~= va);
                assert(out@ =~= old(out)@ + ser_json(v@));
            }
        },
        JsonValue::Obj(members) => {
            let ghost vm = v@->Obj_0;
            proof {
                lemma_view_json_members(members@);
            }
            out.push(123);
            let mut i: usize = 0;
            while i < members.len()
                invariant
                    i <= members@.len(),
                    *v is Obj,
                    *members == v->Obj_0,
                    vm == v@->Obj_0,
                    vm.len() == members@.len(),
                    forall|k: int| 0 <= k < vm.len() ==> vm[k] == (
                        members@[k].0@,
                        view_json(members@[k].1),
                    ),
                    out@ == old(out)@ + seq![123u8] + ser_members(vm.take(i as int)),
                decreases members@.len() - i,
            {
                if i > 0 {
                    out.push(44);
                }
                encode_string(&members[i].0, out);
                out.push(58);
                proof {
                    assert(decreases_to!(*v => v->Obj_0));
                    assert(decreases_to!(*members => members[i as int]));
                    assert(decreases_to!(members[i as int] => members[i as int].1));
                    assert(decreases_to!(*v => members[i as int].1));
                }
                encode_json(&members[i].1, out);
                proof {
                    lemma_ser_members_snoc(vm, i as int);
                    assert(out@ =~= old(out)@ + seq![123u8] + ser_members(vm.take(i as int + 1)));
                }
                i = i + 1;
            }
            out.push(125);
            proof {
                assert(vm.take(vm.len() as int) =~= vm);
                assert(out@ =~= old(out)@ + ser_json(v@));
            }
        },
    }
}

/// The canonical JSON text of `v`, as bytes.
pub fn encode_value(v: &JsonValue) -> (r: Vec<u8>)
    ensures
        r@ == ser_json(v@),
{
    let mut out: Vec<u8> = Vec::new();
    encode_json(v, &mut out);
    proof {
        assert(out@ =~= ser_json(v@));
    }
    out
}

pub open spec fn is_digit(b: u8) -> bool {
    48 <= b <= 57
}

/// The value of one decimal digit byte; zero for anything else.
pub open spec fn digit_val(b: u8) -> nat {
    if is_digit(b) {
        (b - 48) as nat
    } else {
        0
    }
}

/// The number read from a run of decimal digit bytes, most significant first.
pub open spec fn fold_digits(ds: Seq<u8>) -> nat
    decreases ds.len(),
{
    if ds.len() == 0 {
        0
    } else {
        fold_digits(ds.drop_last()) * 10 + digit_val(ds.last())
    }
}

/// `dec_of(n)` is a non-empty run of digits that reads back as `n`.
pub proof fn lemma_dec_of_props(n: nat)
    ensures
        dec_of(n).len() >= 1,
        forall|k: int| 0 <= k < dec_of(n).len() ==> is_digit(#[trigger] dec_of(n)[k]),
        fold_digits(dec_of(n)) == n,
    decreases n,
{
    if n < 10 {
        let ds = dec_of(n);
        assert(ds =~= seq![(48 + n) as u8]);
        assert(ds.drop_last() =~= Seq::<u8>::empty());
        assert(fold_digits(ds.drop_last()) == 0);
        assert(ds.last() == (48 + n) as u8);
        assert(digit_val((48 + n) as u8) == n);
        assert(fold_digits(ds) == n);
    } else {
        lemma_dec_of_props(n / 10);
        let ds = dec_of(n);
        assert(ds.drop_last() =~= dec_of(n / 10));
        assert(ds.last() == (48 + n % 10) as u8);
        assert(digit_val((48 + n % 10) as u8) == n % 10);
        assert(fold_digits(ds) == (n / 10) * 10 + n % 10);
    }
}

/// Reading a prefix of a digit run gives at most the whole run's value.
pub proof fn lemma_fold_take_le(ds: Seq<u8>, i: int)
    requires
        0 <= i <= ds.len(),
    ensures
        fold_digits(ds.take(i)) <= fold_digits(ds),
    decreases ds.len() - i,
{
    if i == ds.len() {
        assert(ds.take(i) =~= ds);
    } else {
        assert(ds.take(i + 1).drop_last() =~= ds.take(i));
        assert(fold_digits(ds.take(i + 1)) == fold_digits(ds.take(i)) * 10 + digit_val(
            ds.take(i + 1).last(),
        ));
        lemma_fold_take_le(ds, i + 1);
    }
}

/// True when `rest` cannot extend a decimal number to its left: it is empty
/// or starts with a non-digit.
pub open spec fn num_cont_ok(rest: Seq<u8>) -> bool {
    rest.len() == 0 || !is_digit(rest[0])
}

/// From `pos` on, `s` reads as the digits of `n` followed by `rest`.
pub open spec fn dec_hyp(s: Seq<u8>, pos: int, n: nat, rest: Seq<u8>) -> bool {
    s.skip(pos) == dec_of(n) + rest && num_cont_ok(rest)
}

/// Reads a run of decimal digits as a `u64`. Fails on a missing digit or on
/// a value that does not fit.
fn parse_u64(s: &Vec<u8>, pos: usize) -> (r: Option<(u64, usize)>)
    requires
        pos <= s@.len(),
    ensures
        r matches Some(p) ==> pos < p.1 <= s@.len(),
        forall|n: nat, rest: Seq<u8>|
            #[trigger] dec_hyp(s@, pos as int, n, rest) && n <= u64::MAX ==> (r matches Some(p)
                && p.0 == n && p.1 == pos + dec_of(n).len()),
{
    let ghost gs = s@;
    if pos >= s.len() || !(48 <= s[pos] && s[pos] <= 57) {
        proof {
            assert forall|n: nat, rest: Seq<u8>|
                dec_hyp(gs, pos as int, n, rest) && n <= u64::MAX implies false by {
                lemma_dec_of_props(n);
                let ds = dec_of(n);
                assert(gs.skip(pos as int).len() == gs.len() - pos);
                assert(pos < gs.len());
                assert(gs.skip(pos as int)[0] == gs[pos as int]);
                assert((ds + rest)[0] == ds[0]);
                assert(is_digit(gs[pos as int]));
            }
        }
        return None;
    }
    let mut i: usize = pos;
    let mut val: u64 = 0;
    while i < s.len() && 48 <= s[i] && s[i] <= 57
        invariant
            pos <= i <= s@.len(),
            gs == s@,
            forall|k: int| pos <= k < i ==> is_digit(gs[k]),
            val == fold_digits(gs.subrange(pos as int, i as int)),
            i == pos || is_digit(gs[pos as int]),
            pos < s@.len() && is_digit(gs[pos as int]),
            forall|n: nat, rest: Seq<u8>|
                #[trigger] dec_hyp(gs, pos as int, n, rest) && n <= u64::MAX ==> i - pos
                    <= dec_of(n).len(),
        decreases s@.len() - i,
    {
        let d: u8 = s[i] - 48;
        proof {
            assert forall|n: nat, rest: Seq<u8>|
                dec_hyp(gs, pos as int, n, rest) && n <= u64::MAX implies val * 10 + d <= n && i
                - pos < dec_of(n).len() by {
                lemma_dec_of_props(n);
                let ds = dec_of(n);
                // the digits consumed so far are a prefix of ds
                assert(gs.subrange(pos as int, i as int) =~= ds.take(i - pos)) by {
                    assert(forall|k: int|
                        0 <= k < i - pos ==> gs.subrange(pos as int, i as int)[k] == gs[pos + k]
                            && gs[pos + k] == (ds + rest)[k]);
                }
                if i - pos == ds.len() {
                    // the next byte would belong to rest, but it is a digit
                    assert(gs[i as int] == (ds + rest)[i - pos]);
                    assert(rest[0] == gs[i as int]);
                    assert(false);
                }
                assert(ds.take(i - pos + 1).drop_last() =~= ds.take(i - pos));
                assert(gs[i as int] == (ds + rest)[i - pos]);
                assert(ds.take(i - pos + 1).last() == ds[i - pos]);
                assert(fold_digits(ds.take(i - pos + 1)) == val * 10 + digit_val(ds[i - pos]));
                assert(digit_val(ds[i - pos]) == d);
                lemma_fold_take_le(ds, i - pos + 1);
            }
        }
        if val > (u64::MAX - d as u64) / 10 {
            proof {
                assert forall|n: nat, rest: Seq<u8>|
                    dec_hyp(gs, pos as int, n, rest) && n <= u64::MAX implies false by {
                    assert(val * 10 + d <= n);
                    assert(val <= (u64::MAX - d as u64) / 10) by {
                        assert(val * 10 <= u64::MAX - d);
                        assert(((u64::MAX - d as u64) / 10) * 10 + (u64::MAX - d as u64) % 10
                            == u64::MAX - d as u64);
                    }
                }
            }
            return None;
        }
        proof {
            assert(val * 10 + d <= u64::MAX) by {
                assert(val <= (u64::MAX - d as u64) / 10);
                assert(((u64::MAX - d as u64) / 10) * 10 <= u64::MAX - d as u64);
            }
            assert(gs.subrange(pos as int, i + 1 as int).drop_last() =~= gs.subrange(
                pos as int,
                i as int,
            ));
        }
        val = val * 10 + d as u64;
        i = i + 1;
    }
    proof {
        assert forall|n: nat, rest: Seq<u8>|
            dec_hyp(gs, pos as int, n, rest) && n <= u64::MAX implies val == n && i == pos + dec_of(
            n,
        ).len() by {
            lemma_dec_of_props(n);
            let ds = dec_of(n);
            assert(gs.subrange(pos as int, i as int) =~= ds.take(i - pos)) by {
                assert(forall|k: int|
                    0 <= k < i - pos ==> gs.subrange(pos as int, i as int)[k] == gs[pos + k]
                        && gs[pos + k] == (ds + rest)[k]);
            }
            if i - pos < ds.len() {
                // the loop would have continued: the next byte is a digit of ds
                assert(gs[i as int] == (ds + rest)[i - pos]);
                assert(is_digit(gs[i as int]));
                assert(i < gs.len());
                assert(false);
            }
            assert(ds.take(i - pos) =~= ds);
        }
    }
    Some((val, i))
}

/// From `pos` on, `s` reads as the escaped bytes of string `b`, the closing
/// quote, and then `rest`.
pub open spec fn str_hyp(s: Seq<u8>, pos: int, b: Seq<u8>, rest: Seq<u8>) -> bool {
    s.skip(pos) == ser_str_body(b) + seq![34u8] + rest
}

/// Value of one hexadecimal digit byte, upper or lower case.
fn hex_val(c: u8) -> (r: Option<u8>)
    ensures
        r matches Some(v) ==> v < 16,
        forall|x: u8| x < 16 && c == hex_digit(x) ==> r == Some(x),
{
    if 48 <= c && c <= 57 {
        Some(c - 48)
    } else if 97 <= c && c <= 102 {
        Some(c - 87)
    } else if 65 <= c && c <= 70 {
        Some(c - 55)
    } else {
        None
    }
}

/// Reads the body of a JSON string up to and including the closing quote,
/// undoing the escapes the serializer writes. Escapes `\uXXXX` are accepted
/// for code points below 128 only; a raw control byte is refused.
fn parse_string_body(s: &Vec<u8>, pos: usize) -> (r: Option<(Vec<u8>, usize)>)
    requires
        pos <= s@.len(),
    ensures
        r matches Some(p) ==> pos < p.1 <= s@.len(),
        forall|b: Seq<u8>, rest: Seq<u8>|
            #[trigger] str_hyp(s@, pos as int, b, rest) ==> (r matches Some(p) && p.0@ == b && p.1
                == pos + ser_str_body(b).len() + 1),
{
    let ghost gs = s@;
    let mut acc: Vec<u8> = Vec::new();
    let mut i: usize = pos;
    proof {
        assert forall|b: Seq<u8>, rest: Seq<u8>| #[trigger] str_hyp(gs, pos as int, b, rest) implies {
            &&& acc@ == b.take(0)
            &&& i == pos + ser_str_body(b.take(0)).len()
            &&& gs.skip(i as int) == ser_str_body(b.skip(0)) + seq![34u8] + rest
        } by {
            assert(b.take(0) =~= Seq::<u8>::empty());
            assert(acc@ =~= b.take(0));
            assert(ser_str_body(b.take(0)) == Seq::<u8>::empty());
            assert(b.skip(0) =~= b);
        }
    }
    loop
        invariant
            pos <= i <= gs.len(),
            gs == s@,
            forall|b: Seq<u8>, rest: Seq<u8>|
                #[trigger] str_hyp(gs, pos as int, b, rest) ==> {
                    let k = acc@.len() as int;
                    &&& k <= b.len()
                    &&& acc@ == b.take(k)
                    &&& i == pos + ser_str_body(b.take(k)).len()
                    &&& gs.skip(i as int) == ser_str_body(b.skip(k)) + seq![34u8] + rest
                },
        decreases gs.len() - i,
    {
        let ghost k = acc@.len() as int;
        proof {
            assert forall|b: Seq<u8>, rest: Seq<u8>|
                str_hyp(gs, pos as int, b, rest) implies i < gs.len() && (k < b.len() ==> {
                let t = ser_str_body(b.skip(k));
                &&& t == esc_byte(b[k]) + ser_str_body(b.skip(k + 1))
                &&& t.len() >= 1
                &&& gs[i as int] == esc_byte(b[k])[0]
            }) && (k == b.len() ==> gs[i as int] == 34) by {
                let t = ser_str_body(b.skip(k));
                if k < b.len() {
                    assert(b.skip(k).len() == b.len() - k >= 1);
                    assert(b.skip(k)[0] == b[k]);
                    assert(b.skip(k).subrange(1, b.skip(k).len() as int) =~= b.skip(k + 1));
                    assert(t == esc_byte(b[k]) + ser_str_body(b.skip(k + 1)));
                    assert(esc_byte(b[k]).len() >= 1);
                    assert(gs.skip(i as int)[0] == gs[i as int]);
                    assert((t + seq![34u8] + rest)[0] == t[0]);
                    assert(t[0] == esc_byte(b[k])[0]);
                } else {
                    assert(b.skip(k).len() == 0);
                    assert(t.len() == 0);
                    assert(gs.skip(i as int)[0] == gs[i as int]);
                    assert((t + seq![34u8] + rest)[0] == 34u8);
                }
                assert(gs.skip(i as int).len() >= 1);
            }
        }
        if i >= s.len() {
            return None;
        }
        let c = s[i];
        if c == 34 {
            // closing quote: under the hypothesis the whole string was read
            proof {
                assert forall|b: Seq<u8>, rest: Seq<u8>|
                    str_hyp(gs, pos as int, b, rest) implies acc@ == b && i + 1 == pos
                    + ser_str_body(b).len() + 1 by {
                    if k < b.len() {
                        // an escape never starts with a quote
                        assert(esc_byte(b[k])[0] != 34);
                        assert(false);
                    }
                    assert(b.take(k) =~= b);
                }
            }
            return Some((acc, i + 1));
        } else if c == 92 {
            if s.len() - i < 2 {
                proof {
                    assert forall|b: Seq<u8>, rest: Seq<u8>|
                        str_hyp(gs, pos as int, b, rest) implies false by {
                        assert(k < b.len());
                        assert(esc_byte(b[k]).len() >= 2);
                        let t = ser_str_body(b.skip(k));
                        assert(gs.skip(i as int).len() == gs.len() - i);
                        assert((t + seq![34u8] + rest).len() >= 2);
                    }
                }
                return None;
            }
            let e = s[i + 1];
            proof {
                assert forall|b: Seq<u8>, rest: Seq<u8>|
                    str_hyp(gs, pos as int, b, rest) implies k < b.len() && gs[i + 1] == esc_byte(
                    b[k],
                )[1] && (b[k] == 34 || b[k] == 92 || b[k] < 32) by {
                    assert(esc_byte(b[k])[0] == 92);
                    let t = ser_str_body(b.skip(k));
                    assert(gs.skip(i as int)[1] == gs[i + 1]);
                    assert((t + seq![34u8] + rest)[1] == t[1]);
                    assert(t[1] == esc_byte(b[k])[1]);
                }
            }
            if e == 34 || e == 92 || e == 47 {
                acc.push(e);
                proof {
                    assert forall|b: Seq<u8>, rest: Seq<u8>|
                        #[trigger] str_hyp(gs, pos as int, b, rest) implies {
                        &&& 0 <= k < b.len()
                        &&& acc@ == b.take(k + 1)
                        &&& esc_byte(b[k]).len() == 2
                    } by {
                        if b[k] < 32 {
                            assert(esc_byte(b[k])[1] == 117);
                            assert(false);
                        }
                        assert(b[k] == e);
                        assert(acc@ =~= b.take(k + 1));
                    }
                    step_string_invariant(gs, pos as int, i as int, k, acc@, 2);
                }
                i = i + 2;
            } else if e == 98 || e == 102 || e == 110 || e == 114 || e == 116 {
                // \b \f \n \r \t: the serializer writes these as \u00XX, so
                // under the hypothesis this branch is unreachable
                let d: u8 = if e == 98 {
                    8
                } else if e == 102 {
                    12
                } else if e == 110 {
                    10
                } else if e == 114 {
                    13
                } else {
                    9
                };
                acc.push(d);
                proof {
                    assert forall|b: Seq<u8>, rest: Seq<u8>|
                        str_hyp(gs, pos as int, b, rest) implies false by {
                        assert(esc_byte(b[k])[1] == 34 || esc_byte(b[k])[1] == 92 || esc_byte(
                            b[k],
                        )[1] == 117);
                    }
                }
                i = i + 2;
            } else if e == 117 {
                if s.len() - i < 6 {
                    proof {
                        assert forall|b: Seq<u8>, rest: Seq<u8>|
                            str_hyp(gs, pos as int, b, rest) implies false by {
                            assert(b[k] < 32);
                            assert(esc_byte(b[k]).len() == 6);
                            let t = ser_str_body(b.skip(k));
                            assert(gs.skip(i as int).len() == gs.len() - i);
                            assert((t + seq![34u8] + rest).len() >= 6);
                        }
                    }
                    return None;
                }
                proof {
                    assert forall|b: Seq<u8>, rest: Seq<u8>|
                        str_hyp(gs, pos as int, b, rest) implies b[k] < 32 && gs[i + 2] == 48
                        && gs[i + 3] == 48 && gs[i + 4] == hex_digit(b[k] / 16) && gs[i + 5]
                        == hex_digit(b[k] % 16) by {
                        assert(b[k] < 32);
                        let t = ser_str_body(b.skip(k));
                        let eb = esc_byte(b[k]);
                        assert forall|q: int| 2 <= q < 6 implies gs[i + q] == eb[q] by {
                            assert(gs.skip(i as int)[q] == gs[i + q]);
                            assert((t + seq![34u8] + rest)[q] == t[q]);
                            assert(t[q] == eb[q]);
                        }
                    }
                }
                let h2 = hex_val(s[i + 2]);
                let h3 = hex_val(s[i + 3]);
                let h4 = hex_val(s[i + 4]);
                let h5 = hex_val(s[i + 5]);
                if h2.is_none() || h3.is_none() || h4.is_none() || h5.is_none() {
                    proof {
                        assert forall|b: Seq<u8>, rest: Seq<u8>|
                            str_hyp(gs, pos as int, b, rest) implies false by {
                            assert(gs[i + 2] == hex_digit(0) && gs[i + 3] == hex_digit(0));
                            assert(b[k] / 16 < 16 && gs[i + 4] == hex_digit(b[k] / 16));
                            assert(b[k] % 16 < 16 && gs[i + 5] == hex_digit(b[k] % 16));
                            assert(h2 is Some && h3 is Some && h4 is Some && h5 is Some);
                        }
                    }
                    return None;
                }
                let code: u32 = h2.unwrap() as u32 * 4096 + h3.unwrap() as u32 * 256 + h4.unwrap()
                    as u32 * 16 + h5.unwrap() as u32;
                if code >= 128 {
                    proof {
                        assert forall|b: Seq<u8>, rest: Seq<u8>|
                            str_hyp(gs, pos as int, b, rest) implies false by {
                            assert(gs[i + 2] == hex_digit(0) && gs[i + 3] == hex_digit(0));
                            assert(b[k] / 16 < 16 && gs[i + 4] == hex_digit(b[k] / 16));
                            assert(b[k] % 16 < 16 && gs[i + 5] == hex_digit(b[k] % 16));
                            assert(h2 == Some(0u8) && h3 == Some(0u8));
                            assert(h4 == Some((b[k] / 16) as u8) && h5 == Some((b[k] % 16) as u8));
                            assert(code == (b[k] / 16) * 16 + b[k] % 16);
                            assert(code == b[k]);
                        }
                    }
                    return None;
                }
                acc.push(code as u8);
                proof {
                    assert forall|b: Seq<u8>, rest: Seq<u8>|
                        #[trigger] str_hyp(gs, pos as int, b, rest) implies {
                        &&& 0 <= k < b.len()
                        &&& acc@ == b.take(k + 1)
                        &&& esc_byte(b[k]).len() == 6
                    } by {
                        assert(gs[i + 2] == hex_digit(0) && gs[i + 3] == hex_digit(0));
                        assert(b[k] / 16 < 16 && gs[i + 4] == hex_digit(b[k] / 16));
                        assert(b[k] % 16 < 16 && gs[i + 5] == hex_digit(b[k] % 16));
                        assert(h2 == Some(0u8) && h3 == Some(0u8));
                        assert(h4 == Some((b[k] / 16) as u8) && h5 == Some((b[k] % 16) as u8));
                        assert(code == (b[k] / 16) * 16 + b[k] % 16);
                        assert(code == b[k]);
                        assert(acc@ =~= b.take(k + 1));
                    }
                    step_string_invariant(gs, pos as int, i as int, k, acc@, 6);
                }
                i = i + 6;
            } else {
                proof {
                    assert forall|b: Seq<u8>, rest: Seq<u8>|
                        str_hyp(gs, pos as int, b, rest) implies false by {
                        assert(esc_byte(b[k])[1] == 34 || esc_byte(b[k])[1] == 92 || esc_byte(
                            b[k],
                        )[1] == 117);
                    }
                }
                return None;
            }
        } else if c < 32 {
            // a raw control byte is not valid JSON, and the serializer never
            // writes one
            proof {
                assert forall|b: Seq<u8>, rest: Seq<u8>|
                    str_hyp(gs, pos as int, b, rest) implies false by {
                    if k < b.len() {
                        assert(esc_byte(b[k])[0] == gs[i as int]);
                    }
                }
            }
            return None;
        } else {
            acc.push(c);
            proof {
                assert forall|b: Seq<u8>, rest: Seq<u8>|
                    #[trigger] str_hyp(gs, pos as int, b, rest) implies {
                    &&& 0 <= k < b.len()
                    &&& acc@ == b.take(k + 1)
                    &&& esc_byte(b[k]).len() == 1
                } by {
                    assert(k < b.len());
                    assert(gs[i as int] == esc_byte(b[k])[0]);
                    if b[k] == 34 || b[k] == 92 || b[k] < 32 {
                        assert(esc_byte(b[k])[0] == 92);
                        assert(false);
                    }
                    assert(b[k] == c);
                    assert(acc@ =~= b.take(k + 1));
                }
                step_string_invariant(gs, pos as int, i as int, k, acc@, 1);
            }
            i = i + 1;
        }
    }
}

/// The bytes of an ASCII character sequence.
pub open spec fn ascii_bytes(s: Seq<char>) -> Seq<u8> {
    Seq::new(s.len(), |i: int| s[i] as u8)
}

/// The bytes of an ASCII string literal.
pub fn str_bytes(s: &str) -> (r: Vec<u8>)
    requires
        vstd::string::is_ascii(s),
    ensures
        r@ == ascii_bytes(s@),
{
    proof {
        vstd::string::is_ascii_spec_bytes(s);
        assert(s.spec_bytes() =~= ascii_bytes(s@));
    }
    s.as_bytes_vec()
}

/// Compares two byte strings.
pub fn eq_bytes(a: &Vec<u8>, b: &Vec<u8>) -> (r: bool)
    ensures
        r == (a@ == b@),
{
    if a.len() != b.len() {
        proof {
            assert(a@ != b@);
        }
        return false;
    }
    let mut i: usize = 0;
    while i < a.len()
        invariant
            i <= a@.len(),
            a@.len() == b@.len(),
            forall|k: int| 0 <= k < i ==> a@[k] == b@[k],
        decreases a@.len() - i,
    {
        if a[i] != b[i] {
            return false;
        }
        i = i + 1;
    }
    proof {
        assert(a@ =~= b@);
    }
    true
}

/// The value of the first member of `m` whose key is `key`, if any.
pub open spec fn find_key(m: Seq<(Seq<u8>, JsonData)>, key: Seq<u8>) -> Option<JsonData>
    decreases m.len(),
{
    if m.len() == 0 {
        Option::None
    } else if m[0].0 == key {
        Option::Some(m[0].1)
    } else {
        find_key(m.subrange(1, m.len() as int), key)
    }
}

/// The bytes of the first member of `m` whose key is `key`, provided that
/// member's value is a string.
pub open spec fn find_str_key(m: Seq<(Seq<u8>, JsonData)>, key: Seq<u8>) -> Option<Seq<u8>> {
    match find_key(m, key) {
        Option::Some(JsonData::Str(b)) => Option::Some(b),
        _ => Option::None,
    }
}

/// Copies the string value of the first member named `key` out of an object's
/// member list.
pub fn get_str_field(members: &Vec<(Vec<u8>, JsonValue)>, key: &Vec<u8>) -> (r: Option<Vec<u8>>)
    ensures
        match find_str_key(view_json_members(members@), key@) {
            Option::Some(b) => r matches Some(v) && v@ == b,
            Option::None => r is None,
        },
{
    proof {
        lemma_view_json_members(members@);
    }
    let mut i: usize = 0;
    while i < members.len()
        invariant
            i <= members@.len(),
            forall|k: int| 0 <= k < i ==> members@[k].0@ != key@,
        decreases members@.len() - i,
    {
        proof {
            lemma_view_json_members(members@);
        }
        if eq_bytes(&members[i].0, key) {
            proof {
                lemma_find_key_skip(view_json_members(members@), key@, i as int);
            }
            match &members[i].1 {
                JsonValue::Str(b) => {
                    let out = b.clone();
                    proof {
                        assert(out@ =~= b@);
                    }
                    return Some(out);
                },
                _ => {
                    return None;
                },
            }
        }
        proof {
            let vm = view_json_members(members@);
            assert(vm.skip(i as int)[0] == vm[i as int]);
            assert(vm.skip(i as int).subrange(1, vm.skip(i as int).len() as int) =~= vm.skip(
                i as int + 1,
            ));
        }
        i = i + 1;
    }
    proof {
        let vm = view_json_members(members@);
        lemma_find_key_skip(vm, key@, i as int);
        assert(vm.skip(i as int).len() == 0);
    }
    None
}

/// Index of the first member of `m` whose key is `key`; `m.len()` when none
/// matches.
pub open spec fn find_key_at(m: Seq<(Seq<u8>, JsonData)>, key: Seq<u8>) -> int
    decreases m.len(),
{
    if m.len() == 0 {
        0
    } else if m[0].0 == key {
        0
    } else {
        1 + find_key_at(m.subrange(1, m.len() as int), key)
    }
}

/// With no match before `i`, a match at `i` is the first one, and reaching
/// the end without one means there is none.
pub proof fn lemma_find_key_first(m: Seq<(Seq<u8>, JsonData)>, key: Seq<u8>, i: int)
    requires
        0 <= i <= m.len(),
        forall|k: int| 0 <= k < i ==> (#[trigger] m[k]).0 != key,
    ensures
        i < m.len() && m[i].0 == key ==> find_key_at(m, key) == i && find_key(m, key)
            == Option::Some(m[i].1),
        i == m.len() ==> find_key_at(m, key) == m.len() && find_key(m, key) is None,
    decreases i,
{
    if i == 0 {
    } else {
        let t = m.subrange(1, m.len() as int);
        assert(forall|k: int| 0 <= k < i - 1 ==> (#[trigger] t[k]).0 == m[k + 1].0);
        lemma_find_key_first(t, key, i - 1);
        if i < m.len() && m[i].0 == key {
            assert(t[i - 1] == m[i]);
        }
    }
}

/// `find_key` looks no further than the first matching member: skipping a
/// prefix with no match leaves the result unchanged.
proof fn lemma_find_key_skip(m: Seq<(Seq<u8>, JsonData)>, key: Seq<u8>, i: int)
    requires
        0 <= i <= m.len(),
        forall|k: int| 0 <= k < i ==> m[k].0 != key,
    ensures
        find_key(m, key) == find_key(m.skip(i), key),
    decreases i,
{
    if i > 0 {
        assert(m.subrange(1, m.len() as int) =~= m.skip(1));
        lemma_find_key_skip(m.skip(1), key, i - 1);
        assert(m.skip(1).skip(i - 1) =~= m.skip(i));
    } else {
        assert(m.skip(0) =~= m);
    }
}

/// Removes the first member named `key` from an object's member list and
/// hands its value out.
pub fn take_key(members: &mut Vec<(Vec<u8>, JsonValue)>, key: &Vec<u8>) -> (r: Option<JsonValue>)
    ensures
        match find_key(view_json_members(old(members)@), key@) {
            Option::Some(j) => r matches Some(v) && v@ == j && final(members)@ == old(
                members,
            )@.remove(find_key_at(view_json_members(old(members)@), key@)),
            Option::None => r is None && final(members)@ == old(members)@,
        },
{
    proof {
        lemma_view_json_members(members@);
    }
    let mut i: usize = 0;
    while i < members.len()
        invariant
            i <= members@.len(),
            members@ == old(members)@,
            forall|k: int| 0 <= k < i ==> members@[k].0@ != key@,
        decreases members@.len() - i,
    {
        proof {
            lemma_view_json_members(members@);
        }
        if eq_bytes(&members[i].0, key) {
            proof {
                let vm = view_json_members(members@);
                assert(vm[i as int].0 == members@[i as int].0@);
                lemma_find_key_first(vm, key@, i as int);
            }
            let p = members.remove(i);
            return Some(p.1);
        }
        proof {
            let vm = view_json_members(members@);
            assert(vm.skip(i as int)[0] == vm[i as int]);
            assert(vm.skip(i as int).subrange(1, vm.skip(i as int).len() as int) =~= vm.skip(
                i as int + 1,
            ));
        }
        i = i + 1;
    }
    proof {
        let vm = view_json_members(members@);
        lemma_find_key_first(vm, key@, i as int);
    }
    None
}

/// An upper bound on every element's depth bounds the sequence's depth.
pub proof fn lemma_jdepth_seq_bound(a: Seq<JsonData>, d: nat)
    requires
        forall|i: int| 0 <= i < a.len() ==> jdepth(#[trigger] a[i]) <= d,
    ensures
        jdepth_seq(a) <= d,
    decreases a.len(),
{
    if a.len() > 0 {
        lemma_jdepth_seq_bound(a.subrange(1, a.len() as int), d);
    }
}

/// An upper bound on every member value's depth bounds the members' depth.
pub proof fn lemma_jdepth_members_bound(m: Seq<(Seq<u8>, JsonData)>, d: nat)
    requires
        forall|i: int| 0 <= i < m.len() ==> jdepth((#[trigger] m[i]).1) <= d,
    ensures
        jdepth_members(m) <= d,
    decreases m.len(),
{
    if m.len() > 0 {
        lemma_jdepth_members_bound(m.subrange(1, m.len() as int), d);
    }
}

/// Nesting depth of a JSON value: zero for leaves, one more than the deepest
/// child for arrays and objects.
pub open spec fn jdepth(j: JsonData) -> nat
    decreases j,
{
    match j {
        JsonData::Null => 0,
        JsonData::Bool(_) => 0,
        JsonData::Int(_) => 0,
        JsonData::Str(_) => 0,
        JsonData::Arr(a) => 1 + jdepth_seq(a),
        JsonData::Obj(m) => 1 + jdepth_members(m),
    }
}

pub open spec fn jdepth_seq(a: Seq<JsonData>) -> nat
    decreases a,
{
    if a.len() == 0 {
        0
    } else {
        let h = jdepth(a[0]);
        let t = jdepth_seq(a.subrange(1, a.len() as int));
        if h >= t {
            h
        } else {
            t
        }
    }
}

pub open spec fn jdepth_members(m: Seq<(Seq<u8>, JsonData)>) -> nat
    decreases m,
{
    if m.len() == 0 {
        0
    } else {
        let h = jdepth(m[0].1);
        let t = jdepth_members(m.subrange(1, m.len() as int));
        if h >= t {
            h
        } else {
            t
        }
    }
}

proof fn lemma_jdepth_seq_ge(a: Seq<JsonData>, k: int)
    requires
        0 <= k < a.len(),
    ensures
        jdepth_seq(a) >= jdepth(a[k]),
    decreases k,
{
    if k > 0 {
        lemma_jdepth_seq_ge(a.subrange(1, a.len() as int), k - 1);
        assert(a.subrange(1, a.len() as int)[k - 1] == a[k]);
    }
}

proof fn lemma_jdepth_members_ge(m: Seq<(Seq<u8>, JsonData)>, k: int)
    requires
        0 <= k < m.len(),
    ensures
        jdepth_members(m) >= jdepth(m[k].1),
    decreases k,
{
    if k > 0 {
        lemma_jdepth_members_ge(m.subrange(1, m.len() as int), k - 1);
        assert(m.subrange(1, m.len() as int)[k - 1] == m[k]);
    }
}

/// The serialization of any value is non-empty, and its first byte tells the
/// variant apart.
proof fn lemma_ser_shape(j: JsonData)
    ensures
        ser_json(j).len() >= 1,
        j is Null ==> ser_json(j)[0] == 110,
        j matches JsonData::Bool(b) ==> ser_json(j)[0] == (if b {
            116u8
        } else {
            102u8
        }),
        j is Int ==> is_digit(ser_json(j)[0]),
        j is Str ==> ser_json(j)[0] == 34,
        j is Arr ==> ser_json(j)[0] == 91,
        j is Obj ==> ser_json(j)[0] == 123,
{
    match j {
        JsonData::Int(n) => {
            lemma_dec_of_props(n as nat);
        },
        JsonData::Str(b) => {
            assert(ser_json(j)[0] == (seq![34u8] + ser_str_body(b) + seq![34u8])[0]);
        },
        _ => {},
    }
}

pub open spec fn is_ws(b: u8) -> bool {
    b == 32 || b == 9 || b == 10 || b == 13
}

/// Advances past blanks, tabs and line breaks.
fn skip_ws(s: &Vec<u8>, pos: usize) -> (r: usize)
    requires
        pos <= s@.len(),
    ensures
        pos <= r <= s@.len(),
        pos < s@.len() && !is_ws(s@[pos as int]) ==> r == pos,
        pos == s@.len() ==> r == pos,
{
    let mut i: usize = pos;
    while i < s.len() && (s[i] == 32 || s[i] == 9 || s[i] == 10 || s[i] == 13)
        invariant
            pos <= i <= s@.len(),
            i > pos ==> pos < s@.len() && is_ws(s@[pos as int]),
        decreases s@.len() - i,
    {
        i = i + 1;
    }
    i
}

/// From `pos` on, `s` reads as the canonical serialization of `j` followed by
/// `rest`, and `rest` cannot extend a trailing number.
pub open spec fn parse_hyp(s: Seq<u8>, pos: int, j: JsonData, rest: Seq<u8>) -> bool {
    s.skip(pos) == ser_json(j) + rest && num_cont_ok(rest)
}

/// What follows the first element of a non-empty array body.
pub open spec fn ser_elems_tail(a: Seq<JsonData>) -> Seq<u8> {
    if a.len() <= 1 {
        Seq::empty()
    } else {
        seq![44u8] + ser_elems(a.subrange(1, a.len() as int))
    }
}

proof fn lemma_ser_elems_head(a: Seq<JsonData>)
    requires
        a.len() >= 1,
    ensures
        ser_elems(a) == ser_json(a[0]) + ser_elems_tail(a),
{
    if a.len() == 1 {
        assert(ser_json(a[0]) + Seq::<u8>::empty() =~= ser_json(a[0]));
    } else {
        assert(ser_json(a[0]) + seq![44u8] + ser_elems(a.subrange(1, a.len() as int)) =~= ser_json(
            a[0],
        ) + ser_elems_tail(a));
    }
}

/// What follows the first member of a non-empty object body.
pub open spec fn ser_members_tail(m: Seq<(Seq<u8>, JsonData)>) -> Seq<u8> {
    if m.len() <= 1 {
        Seq::empty()
    } else {
        seq![44u8] + ser_members(m.subrange(1, m.len() as int))
    }
}

proof fn lemma_ser_members_head(m: Seq<(Seq<u8>, JsonData)>)
    requires
        m.len() >= 1,
    ensures
        ser_members(m) == ser_string(m[0].0) + seq![58u8] + ser_json(m[0].1) + ser_members_tail(m),
{
    if m.len() == 1 {
        assert(ser_member(m[0]) =~= ser_string(m[0].0) + seq![58u8] + ser_json(m[0].1));
        assert(ser_member(m[0]) + Seq::<u8>::empty() =~= ser_member(m[0]));
        assert(ser_members(m) =~= ser_string(m[0].0) + seq![58u8] + ser_json(m[0].1)
            + ser_members_tail(m));
    } else {
        assert(ser_member(m[0]) =~= ser_string(m[0].0) + seq![58u8] + ser_json(m[0].1));
        assert(ser_members(m) =~= ser_string(m[0].0) + seq![58u8] + ser_json(m[0].1)
            + ser_members_tail(m));
    }
}

/// Greatest nesting depth the decoder accepts, as a guard against unbounded
/// recursion on adversarial input.
pub const JSON_DEPTH_LIMIT: u32 = 128;

/// Reads one JSON value starting exactly at `pos`. Whitespace is allowed
/// inside arrays and objects around punctuation. On any text that is the
/// canonical serialization of a value within the depth bound, followed by
/// anything that cannot extend a trailing number, it returns exactly that
/// value.
#[verifier::rlimit(100)]
fn parse_json_at(s: &Vec<u8>, pos: usize, depth: u32) -> (r: Option<(JsonValue, usize)>)
    requires
        pos <= s@.len(),
    ensures
        r matches Some(p) ==> pos < p.1 <= s@.len(),
        forall|j: JsonData, rest: Seq<u8>|
            #[trigger] parse_hyp(s@, pos as int, j, rest) && jdepth(j) < depth ==> (r matches Some(
                p,
            ) && p.0@ == j && p.1 == pos + ser_json(j).len()),
    decreases s@.len() - pos, 1int,
{
    let ghost gs = s@;
    if depth == 0 {
        return None;
    }
    proof {
        assert forall|j: JsonData, rest: Seq<u8>|
            parse_hyp(gs, pos as int, j, rest) implies pos < gs.len() && gs[pos as int] == ser_json(
            j,
        )[0] && (forall|q: int|
            0 <= q < ser_json(j).len() ==> gs[pos + q] == #[trigger] ser_json(j)[q]) by {
            lemma_ser_shape(j);
            assert(gs.skip(pos as int).len() == gs.len() - pos);
            assert(gs.skip(pos as int)[0] == gs[pos as int]);
            assert((ser_json(j) + rest)[0] == ser_json(j)[0]);
            assert forall|q: int| 0 <= q < ser_json(j).len() implies gs[pos + q] == ser_json(
                j,
            )[q] by {
                assert(gs.skip(pos as int)[q] == gs[pos + q]);
                assert((ser_json(j) + rest)[q] == ser_json(j)[q]);
            }
        }
    }
    if pos >= s.len() {
        return None;
    }
    let c = s[pos];
    if c == 110 {
        // null
        if s.len() - pos < 4 || s[pos + 1] != 117 || s[pos + 2] != 108 || s[pos + 3] != 108 {
            proof {
                assert forall|j: JsonData, rest: Seq<u8>|
                    parse_hyp(gs, pos as int, j, rest) implies false by {
                    lemma_ser_shape(j);
                    assert(j is Null);
                    assert(gs.skip(pos as int).len() == gs.len() - pos);
                    assert(gs[pos + 1] == ser_json(j)[1]);
                    assert(gs[pos + 2] == ser_json(j)[2]);
                    assert(gs[pos + 3] == ser_json(j)[3]);
                }
            }
            return None;
        }
        proof {
            assert forall|j: JsonData, rest: Seq<u8>|
                parse_hyp(gs, pos as int, j, rest) implies j == JsonData::Null && ser_json(
                j,
            ).len() == 4 by {
                lemma_ser_shape(j);
            }
        }
        return Some((JsonValue::Null, pos + 4));
    } else if c == 116 {
        // true
        if s.len() - pos < 4 || s[pos + 1] != 114 || s[pos + 2] != 117 || s[pos + 3] != 101 {
            proof {
                assert forall|j: JsonData, rest: Seq<u8>|
                    parse_hyp(gs, pos as int, j, rest) implies false by {
                    lemma_ser_shape(j);
                    assert(j == JsonData::Bool(true));
                    assert(gs.skip(pos as int).len() == gs.len() - pos);
                    assert(gs[pos + 1] == ser_json(j)[1]);
                    assert(gs[pos + 2] == ser_json(j)[2]);
                    assert(gs[pos + 3] == ser_json(j)[3]);
                }
            }
            return None;
        }
        proof {
            assert forall|j: JsonData, rest: Seq<u8>|
                parse_hyp(gs, pos as int, j, rest) implies j == JsonData::Bool(true) && ser_json(
                j,
            ).len() == 4 by {
                lemma_ser_shape(j);
            }
        }
        return Some((JsonValue::Bool(true), pos + 4));
    } else if c == 102 {
        // false
        if s.len() - pos < 5 || s[pos + 1] != 97 || s[pos + 2] != 108 || s[pos + 3] != 115 || s[pos
            + 4] != 101 {
            proof {
                assert forall|j: JsonData, rest: Seq<u8>|
                    parse_hyp(gs, pos as int, j, rest) implies false by {
                    lemma_ser_shape(j);
                    assert(j == JsonData::Bool(false));
                    assert(gs.skip(pos as int).len() == gs.len() - pos);
                    assert(gs[pos + 1] == ser_json(j)[1]);
                    assert(gs[pos + 2] == ser_json(j)[2]);
                    assert(gs[pos + 3] == ser_json(j)[3]);
                    assert(gs[pos + 4] == ser_json(j)[4]);
                }
            }
            return None;
        }
        proof {
            assert forall|j: JsonData, rest: Seq<u8>|
                parse_hyp(gs, pos as int, j, rest) implies j == JsonData::Bool(false) && ser_json(
                j,
            ).len() == 5 by {
                lemma_ser_shape(j);
            }
        }
        return Some((JsonValue::Bool(false), pos + 5));
    } else if 48 <= c && c <= 57 {
        proof {
            assert forall|j: JsonData, rest: Seq<u8>|
                parse_hyp(gs, pos as int, j, rest) implies j is Int && dec_hyp(
                gs,
                pos as int,
                j->Int_0 as nat,
                rest,
            ) by {
                lemma_ser_shape(j);
            }
        }
        match parse_u64(s, pos) {
            None => {
                proof {
                    assert forall|j: JsonData, rest: Seq<u8>|
                        parse_hyp(gs, pos as int, j, rest) implies false by {
                        assert(dec_hyp(gs, pos as int, j->Int_0 as nat, rest));
                    }
                }
                return None;
            },
            Some((n, end)) => {
                proof {
                    assert forall|j: JsonData, rest: Seq<u8>|
                        parse_hyp(gs, pos as int, j, rest) implies j == JsonData::Int(n) && end
                        == pos + ser_json(j).len() by {
                        assert(dec_hyp(gs, pos as int, j->Int_0 as nat, rest));
                    }
                }
                return Some((JsonValue::Int(n), end));
            },
        }
    } else if c == 34 {
        proof {
            assert forall|j: JsonData, rest: Seq<u8>|
                parse_hyp(gs, pos as int, j, rest) implies j is Str && str_hyp(
                gs,
                pos + 1,
                j->Str_0,
                rest,
            ) by {
                lemma_ser_shape(j);
                let b = j->Str_0;
                assert(ser_json(j) =~= seq![34u8] + (ser_str_body(b) + seq![34u8]));
                assert(gs.skip(pos + 1) =~= gs.skip(pos as int).skip(1));
                assert(gs.skip(pos as int).skip(1) =~= (ser_json(j) + rest).skip(1));
                assert((ser_json(j) + rest).skip(1) =~= ser_str_body(b) + seq![34u8] + rest);
            }
        }
        match parse_string_body(s, pos + 1) {
            None => {
                proof {
                    assert forall|j: JsonData, rest: Seq<u8>|
                        parse_hyp(gs, pos as int, j, rest) implies false by {
                        assert(str_hyp(gs, pos + 1, j->Str_0, rest));
                    }
                }
                return None;
            },
            Some((sv, end)) => {
                proof {
                    assert forall|j: JsonData, rest: Seq<u8>|
                        parse_hyp(gs, pos as int, j, rest) implies JsonData::Str(sv@) == j && end
                        == pos + ser_json(j).len() by {
                        assert(str_hyp(gs, pos + 1, j->Str_0, rest));
                        assert(ser_json(j).len() == ser_str_body(j->Str_0).len() + 2);
                    }
                }
                return Some((JsonValue::Str(sv), end));
            },
        }
    } else if c == 91 {
        // array
        let mut i: usize = skip_ws(s, pos + 1);
        proof {
            assert forall|j: JsonData, rest: Seq<u8>|
                parse_hyp(gs, pos as int, j, rest) implies j is Arr && i == pos + 1 && gs.skip(
                i as int,
            ) == ser_elems(j->Arr_0) + seq![93u8] + rest by {
                lemma_ser_shape(j);
                let a = j->Arr_0;
                assert(gs.skip(pos + 1) =~= gs.skip(pos as int).skip(1));
                assert(gs.skip(pos as int).skip(1) =~= (ser_json(j) + rest).skip(1));
                assert((ser_json(j) + rest).skip(1) =~= ser_elems(a) + seq![93u8] + rest);
                // the byte after the bracket is never whitespace
                if pos + 1 < gs.len() {
                    assert(gs.skip(pos + 1)[0] == gs[pos + 1]);
                    if a.len() == 0 {
                        assert((ser_elems(a) + seq![93u8] + rest)[0] == 93);
                    } else {
                        lemma_ser_elems_head(a);
                        lemma_ser_shape(a[0]);
                        assert((ser_elems(a) + seq![93u8] + rest)[0] == ser_json(a[0])[0]);
                    }
                    assert(!is_ws(gs[pos + 1]));
                } else {
                    assert(gs.skip(pos + 1).len() == 0);
                    assert((ser_elems(a) + seq![93u8] + rest).len() >= 1);
                    assert(false);
                }
            }
        }
        if i >= s.len() {
            proof {
                assert forall|j: JsonData, rest: Seq<u8>|
                    parse_hyp(gs, pos as int, j, rest) implies false by {
                    assert(gs.skip(i as int).len() == gs.len() - i);
                    assert((ser_elems(j->Arr_0) + seq![93u8] + rest).len() >= 1);
                }
            }
            return None;
        }
        if s[i] == 93 {
            proof {
                assert forall|j: JsonData, rest: Seq<u8>|
                    parse_hyp(gs, pos as int, j, rest) implies j == JsonData::Arr(
                    Seq::<JsonData>::empty(),
                ) && i + 1 == pos + ser_json(j).len() by {
                    let a = j->Arr_0;
                    if a.len() > 0 {
                        lemma_ser_elems_head(a);
                        lemma_ser_shape(a[0]);
                        assert(gs.skip(i as int)[0] == gs[i as int]);
                        assert((ser_elems(a) + seq![93u8] + rest)[0] == ser_json(a[0])[0]);
                        assert(false);
                    }
                    assert(a =~= Seq::<JsonData>::empty());
                    assert(ser_elems(a).len() == 0);
                    assert(ser_json(j).len() == 2 + ser_elems(a).len());
                }
            }
            let empty_elems: Vec<JsonValue> = Vec::new();
            proof {
                assert(empty_elems@ =~= Seq::<JsonValue>::empty());
                assert(view_json_seq(empty_elems@) =~= Seq::<JsonData>::empty());
                assert(view_json(JsonValue::Arr(empty_elems)) == JsonData::Arr(
                    Seq::<JsonData>::empty(),
                ));
            }
            return Some((JsonValue::Arr(empty_elems), i + 1));
        }
        let mut elems: Vec<JsonValue> = Vec::new();
        proof {
            assert forall|j: JsonData, rest: Seq<u8>|
                parse_hyp(gs, pos as int, j, rest) implies {
                let a = j->Arr_0;
                &&& 0 < a.len()
                &&& view_json_seq(elems@) == a.take(0)
                &&& gs.skip(i as int) == ser_elems(a.skip(0)) + seq![93u8] + rest
            } by {
                let a = j->Arr_0;
                if a.len() == 0 {
                    assert(gs.skip(i as int)[0] == gs[i as int]);
                    assert((ser_elems(a) + seq![93u8] + rest)[0] == 93) by {
                        assert(ser_elems(a).len() == 0);
                    }
                    assert(false);
                }
                assert(view_json_seq(elems@) =~= a.take(0));
                assert(a.skip(0) =~= a);
            }
        }
        loop
            invariant
                gs == s@,
                pos < i <= gs.len(),
                1 <= depth,
                forall|j: JsonData, rest: Seq<u8>|
                    #[trigger] parse_hyp(gs, pos as int, j, rest) && jdepth(j) < depth ==> {
                        let a = j->Arr_0;
                        let k = elems@.len() as int;
                        &&& j is Arr
                        &&& k < a.len()
                        &&& view_json_seq(elems@) == a.take(k)
                        &&& gs.skip(i as int) == ser_elems(a.skip(k)) + seq![93u8] + rest
                    },
            decreases gs.len() - i,
        {
            let ghost k = elems@.len() as int;
            proof {
                assert forall|j: JsonData, rest: Seq<u8>|
                    parse_hyp(gs, pos as int, j, rest) && jdepth(j) < depth implies {
                    let a = j->Arr_0;
                    &&& parse_hyp(
                        gs,
                        i as int,
                        a[k],
                        ser_elems_tail(a.skip(k)) + seq![93u8] + rest,
                    )
                    &&& jdepth(a[k]) < depth - 1
                } by {
                    let a = j->Arr_0;
                    let c2 = a.skip(k);
                    lemma_ser_elems_head(c2);
                    assert(c2[0] == a[k]);
                    assert(gs.skip(i as int) =~= ser_json(a[k]) + (ser_elems_tail(c2) + seq![93u8]
                        + rest));
                    // what follows the element starts with a comma or bracket
                    let t = ser_elems_tail(c2) + seq![93u8] + rest;
                    if c2.len() <= 1 {
                        assert(t[0] == 93);
                    } else {
                        assert(t[0] == 44);
                    }
                    assert(num_cont_ok(t));
                    lemma_jdepth_seq_ge(a, k);
                    assert(jdepth(j) == 1 + jdepth_seq(a));
                }
            }
            match parse_json_at(s, i, depth - 1) {
                None => {
                    proof {
                        assert forall|j: JsonData, rest: Seq<u8>|
                            parse_hyp(gs, pos as int, j, rest) && jdepth(j) < depth implies false by {
                            let a = j->Arr_0;
                            assert(parse_hyp(
                                gs,
                                i as int,
                                a[k],
                                ser_elems_tail(a.skip(k)) + seq![93u8] + rest,
                            ) && jdepth(a[k]) < depth - 1);
                        }
                    }
                    return None;
                },
                Some((v, vend)) => {
                    let ghost pre = elems@;
                    elems.push(v);
                    i = vend;
                    proof {
                        assert(elems@ == pre.push(v));
                        assert(elems@.take(k) =~= pre);
                        assert forall|j: JsonData, rest: Seq<u8>|
                            parse_hyp(gs, pos as int, j, rest) && jdepth(j) < depth implies {
                            let a = j->Arr_0;
                            &&& view_json_seq(elems@) == a.take(k + 1)
                            &&& gs.skip(i as int) == ser_elems_tail(a.skip(k)) + seq![93u8] + rest
                        } by {
                            let a = j->Arr_0;
                            assert(parse_hyp(
                                gs,
                                i as int - ser_json(a[k]).len(),
                                a[k],
                                ser_elems_tail(a.skip(k)) + seq![93u8] + rest,
                            ) && jdepth(a[k]) < depth - 1) by {
                                assert(parse_hyp(
                                    gs,
                                    vend - ser_json(a[k]).len(),
                                    a[k],
                                    ser_elems_tail(a.skip(k)) + seq![93u8] + rest,
                                ));
                            }
                            assert(v@ == a[k]);
                            lemma_view_json_seq(elems@);
                            lemma_view_json_seq(pre);
                            assert(view_json_seq(pre) == a.take(k));
                            assert(view_json_seq(elems@) =~= a.take(k + 1)) by {
                                assert(forall|q: int| 0 <= q < k ==> elems@[q] == pre[q]);
                                assert(forall|q: int|
                                    0 <= q < k ==> view_json_seq(elems@)[q] == view_json_seq(
                                        pre,
                                    )[q]);
                                assert(view_json_seq(elems@)[k] == view_json(v));
                            }
                            let old_i = i - ser_json(a[k]).len();
                            assert(gs.skip(old_i) == ser_json(a[k]) + (ser_elems_tail(a.skip(k))
                                + seq![93u8] + rest));
                            assert(gs.skip(i as int) =~= gs.skip(old_i).skip(
                                ser_json(a[k]).len() as int,
                            ));
                            assert(gs.skip(old_i).skip(ser_json(a[k]).len() as int)
                                =~= ser_elems_tail(a.skip(k)) + seq![93u8] + rest);
                        }
                    }
                },
            }
            let i2 = skip_ws(s, i);
            proof {
                assert forall|j: JsonData, rest: Seq<u8>|
                    parse_hyp(gs, pos as int, j, rest) && jdepth(j) < depth implies i2 == i && i
                    < gs.len() && gs[i as int] == (if k + 1 == j->Arr_0.len() {
                    93u8
                } else {
                    44u8
                }) by {
                    let a = j->Arr_0;
                    let t = ser_elems_tail(a.skip(k)) + seq![93u8] + rest;
                    assert(gs.skip(i as int).len() == gs.len() - i);
                    assert(t.len() >= 1);
                    assert(gs.skip(i as int)[0] == gs[i as int]);
                    assert(a.skip(k).len() == a.len() - k);
                    if k + 1 == a.len() {
                        assert(t[0] == 93);
                    } else {
                        assert(t[0] == 44);
                    }
                    assert(!is_ws(gs[i as int]));
                }
            }
            let i_before = i;
            let i3 = i2;
            if i3 >= s.len() {
                proof {
                    assert forall|j: JsonData, rest: Seq<u8>|
                        parse_hyp(gs, pos as int, j, rest) && jdepth(j) < depth implies false by {
                        assert(i3 == i && i < gs.len());
                    }
                }
                return None;
            }
            let c2 = s[i3];
            if c2 == 44 {
                let i4 = skip_ws(s, i3 + 1);
                proof {
                    assert forall|j: JsonData, rest: Seq<u8>|
                        parse_hyp(gs, pos as int, j, rest) && jdepth(j) < depth implies {
                        let a = j->Arr_0;
                        &&& k + 1 < a.len()
                        &&& i4 == i3 + 1
                        &&& view_json_seq(elems@) == a.take(k + 1)
                        &&& gs.skip(i3 + 1) == ser_elems(a.skip(k + 1)) + seq![93u8] + rest
                    } by {
                        let a = j->Arr_0;
                        assert(i3 == i);
                        assert(k + 1 != a.len());
                        let c3 = a.skip(k);
                        assert(c3.len() >= 2);
                        assert(ser_elems_tail(c3) == seq![44u8] + ser_elems(
                            c3.subrange(1, c3.len() as int),
                        ));
                        assert(c3.subrange(1, c3.len() as int) =~= a.skip(k + 1));
                        assert(gs.skip(i as int) =~= seq![44u8] + (ser_elems(a.skip(k + 1))
                            + seq![93u8] + rest));
                        assert(gs.skip(i3 + 1) =~= gs.skip(i3 as int).skip(1));
                        assert(gs.skip(i3 as int).skip(1) =~= ser_elems(a.skip(k + 1)) + seq![93u8]
                            + rest);
                        // the next element's first byte is not whitespace
                        lemma_ser_elems_head(a.skip(k + 1));
                        lemma_ser_shape(a.skip(k + 1)[0]);
                        assert(i3 + 1 < gs.len()) by {
                            assert(gs.skip(i3 + 1).len() == gs.len() - (i3 + 1));
                            assert((ser_elems(a.skip(k + 1)) + seq![93u8] + rest).len() >= 1);
                        }
                        assert(gs.skip(i3 + 1)[0] == gs[i3 + 1]);
                        assert((ser_elems(a.skip(k + 1)) + seq![93u8] + rest)[0] == ser_json(
                            a.skip(k + 1)[0],
                        )[0]);
                        assert(!is_ws(gs[i3 + 1]));
                    }
                }
                i = i4;
            } else if c2 == 93 {
                proof {
                    assert forall|j: JsonData, rest: Seq<u8>|
                        parse_hyp(gs, pos as int, j, rest) && jdepth(j) < depth implies
                        view_json(JsonValue::Arr(elems)) == j && i3 + 1 == pos + ser_json(
                        j,
                    ).len() by {
                        let a = j->Arr_0;
                        assert(i3 == i);
                        assert(k + 1 == a.len());
                        assert(view_json_seq(elems@) == a.take(k + 1));
                        assert(a.take(k + 1) =~= a);
                        let t = ser_elems_tail(a.skip(k)) + seq![93u8] + rest;
                        assert(a.skip(k).len() == 1);
                        assert(t =~= seq![93u8] + rest);
                        assert(gs.skip(i as int).len() == gs.len() - i);
                        assert(gs.skip(pos as int).len() == gs.len() - pos);
                        assert(gs.len() - i == 1 + rest.len());
                        assert(gs.len() - pos == ser_json(j).len() + rest.len());
                    }
                }
                return Some((JsonValue::Arr(elems), i3 + 1));
            } else {
                proof {
                    assert forall|j: JsonData, rest: Seq<u8>|
                        parse_hyp(gs, pos as int, j, rest) && jdepth(j) < depth implies false by {
                        assert(i3 == i);
                        assert(gs[i as int] == 93 || gs[i as int] == 44);
                    }
                }
                return None;
            }
            proof {
                assert(i > i_before);
            }
        }
    } else if c == 123 {
        parse_json_obj(s, pos, depth)
    } else {
        proof {
            assert forall|j: JsonData, rest: Seq<u8>|
                parse_hyp(gs, pos as int, j, rest) implies false by {
                lemma_ser_shape(j);
            }
        }
        None
    }
}

/// Reads one JSON object starting at the opening brace at `pos`.
#[verifier::rlimit(100)]
fn parse_json_obj(s: &Vec<u8>, pos: usize, depth: u32) -> (r: Option<(JsonValue, usize)>)
    requires
        pos < s@.len(),
        s@[pos as int] == 123,
        depth >= 1,
    ensures
        r matches Some(p) ==> pos < p.1 <= s@.len(),
        forall|j: JsonData, rest: Seq<u8>|
            #[trigger] parse_hyp(s@, pos as int, j, rest) && jdepth(j) < depth ==> (r matches Some(
                p,
            ) && p.0@ == j && p.1 == pos + ser_json(j).len()),
    decreases s@.len() - pos, 0int,
{
    let ghost gs = s@;
    if pos >= s.len() {
        return None;
    }
    let mut i: usize = skip_ws(s, pos + 1);
    proof {
        assert forall|j: JsonData, rest: Seq<u8>|
            parse_hyp(gs, pos as int, j, rest) implies j is Obj && i == pos + 1 && gs.skip(i as int)
            == ser_members(j->Obj_0) + seq![125u8] + rest by {
            lemma_ser_shape(j);
            assert(gs.skip(pos as int)[0] == gs[pos as int]);
            assert((ser_json(j) + rest)[0] == ser_json(j)[0]);
            let m = j->Obj_0;
            assert(gs.skip(pos + 1) =~= gs.skip(pos as int).skip(1));
            assert(gs.skip(pos as int).skip(1) =~= (ser_json(j) + rest).skip(1));
            assert((ser_json(j) + rest).skip(1) =~= ser_members(m) + seq![125u8] + rest);
            if pos + 1 < gs.len() {
                assert(gs.skip(pos + 1)[0] == gs[pos + 1]);
                if m.len() == 0 {
                    assert((ser_members(m) + seq![125u8] + rest)[0] == 125);
                } else {
                    lemma_ser_members_head(m);
                    assert((ser_members(m) + seq![125u8] + rest)[0] == 34) by {
                        assert(ser_string(m[0].0)[0] == 34);
                    }
                }
                assert(!is_ws(gs[pos + 1]));
            } else {
                assert(gs.skip(pos + 1).len() == 0);
                assert((ser_members(m) + seq![125u8] + rest).len() >= 1);
                assert(false);
            }
        }
    }
    if i >= s.len() {
        proof {
            assert forall|j: JsonData, rest: Seq<u8>|
                parse_hyp(gs, pos as int, j, rest) implies false by {
                assert(gs.skip(i as int).len() == gs.len() - i);
                assert((ser_members(j->Obj_0) + seq![125u8] + rest).len() >= 1);
            }
        }
        return None;
    }
    if s[i] == 125 {
        proof {
            assert forall|j: JsonData, rest: Seq<u8>|
                parse_hyp(gs, pos as int, j, rest) implies j == JsonData::Obj(
                Seq::<(Seq<u8>, JsonData)>::empty(),
            ) && i + 1 == pos + ser_json(j).len() by {
                let m = j->Obj_0;
                if m.len() > 0 {
                    lemma_ser_members_head(m);
                    assert(gs.skip(i as int)[0] == gs[i as int]);
                    assert((ser_members(m) + seq![125u8] + rest)[0] == 34) by {
                        assert(ser_string(m[0].0)[0] == 34);
                    }
                    assert(false);
                }
                assert(m =~= Seq::<(Seq<u8>, JsonData)>::empty());
                assert(ser_members(m).len() == 0);
                assert(ser_json(j).len() == 2 + ser_members(m).len());
            }
        }
        let empty_mems: Vec<(Vec<u8>, JsonValue)> = Vec::new();
        proof {
            assert(empty_mems@ =~= Seq::<(Vec<u8>, JsonValue)>::empty());
            assert(view_json_members(empty_mems@) =~= Seq::<(Seq<u8>, JsonData)>::empty());
            assert(view_json(JsonValue::Obj(empty_mems)) == JsonData::Obj(
                Seq::<(Seq<u8>, JsonData)>::empty(),
            ));
        }
        return Some((JsonValue::Obj(empty_mems), i + 1));
    }
    let mut mems: Vec<(Vec<u8>, JsonValue)> = Vec::new();
    proof {
        assert forall|j: JsonData, rest: Seq<u8>| parse_hyp(gs, pos as int, j, rest) implies {
            let m = j->Obj_0;
            &&& 0 < m.len()
            &&& view_json_members(mems@) == m.take(0)
            &&& gs.skip(i as int) == ser_members(m.skip(0)) + seq![125u8] + rest
        } by {
            let m = j->Obj_0;
            if m.len() == 0 {
                assert(gs.skip(i as int)[0] == gs[i as int]);
                assert((ser_members(m) + seq![125u8] + rest)[0] == 125) by {
                    assert(ser_members(m).len() == 0);
                }
                assert(false);
            }
            assert(view_json_members(mems@) =~= m.take(0));
            assert(m.skip(0) =~= m);
        }
    }
    loop
        invariant
            gs == s@,
            pos < i <= gs.len(),
            1 <= depth,
            forall|j: JsonData, rest: Seq<u8>|
                #[trigger] parse_hyp(gs, pos as int, j, rest) && jdepth(j) < depth ==> {
                    let m = j->Obj_0;
                    let k = mems@.len() as int;
                    &&& j is Obj
                    &&& k < m.len()
                    &&& view_json_members(mems@) == m.take(k)
                    &&& gs.skip(i as int) == ser_members(m.skip(k)) + seq![125u8] + rest
                },
        decreases gs.len() - i,
    {
        let ghost k = mems@.len() as int;
        proof {
            assert forall|j: JsonData, rest: Seq<u8>|
                parse_hyp(gs, pos as int, j, rest) && jdepth(j) < depth implies {
                let m = j->Obj_0;
                &&& i < gs.len()
                &&& gs[i as int] == 34
                &&& str_hyp(
                    gs,
                    i + 1,
                    m[k].0,
                    seq![58u8] + ser_json(m[k].1) + ser_members_tail(m.skip(k)) + seq![125u8]
                        + rest,
                )
            } by {
                let m = j->Obj_0;
                let c2 = m.skip(k);
                lemma_ser_members_head(c2);
                assert(c2[0] == m[k]);
                assert(gs.skip(i as int) =~= ser_string(m[k].0) + (seq![58u8] + ser_json(m[k].1)
                    + ser_members_tail(c2) + seq![125u8] + rest));
                assert(gs.skip(i as int).len() == gs.len() - i);
                assert(gs.skip(i as int)[0] == gs[i as int]);
                assert(ser_string(m[k].0)[0] == 34);
                assert(gs.skip(i + 1) =~= gs.skip(i as int).skip(1));
                assert(ser_string(m[k].0) =~= seq![34u8] + (ser_str_body(m[k].0) + seq![34u8]));
                assert(gs.skip(i as int).skip(1) =~= ser_str_body(m[k].0) + seq![34u8] + (seq![58u8]
                    + ser_json(m[k].1) + ser_members_tail(c2) + seq![125u8] + rest));
            }
        }
        if i >= s.len() || s[i] != 34 {
            return None;
        }
        let key;
        let kend;
        match parse_string_body(s, i + 1) {
            None => {
                proof {
                    assert forall|j: JsonData, rest: Seq<u8>|
                        parse_hyp(gs, pos as int, j, rest) && jdepth(j) < depth implies false by {
                        let m = j->Obj_0;
                        assert(str_hyp(
                            gs,
                            i + 1,
                            m[k].0,
                            seq![58u8] + ser_json(m[k].1) + ser_members_tail(m.skip(k))
                                + seq![125u8] + rest,
                        ));
                    }
                }
                return None;
            },
            Some(p) => {
                key = p.0;
                kend = p.1;
            },
        }
        proof {
            assert forall|j: JsonData, rest: Seq<u8>|
                parse_hyp(gs, pos as int, j, rest) && jdepth(j) < depth implies {
                let m = j->Obj_0;
                &&& key@ == m[k].0
                &&& gs.skip(kend as int) == seq![58u8] + ser_json(m[k].1) + ser_members_tail(
                    m.skip(k),
                ) + seq![125u8] + rest
                &&& kend < gs.len()
                &&& gs[kend as int] == 58
            } by {
                let m = j->Obj_0;
                let after = seq![58u8] + ser_json(m[k].1) + ser_members_tail(m.skip(k))
                    + seq![125u8] + rest;
                assert(str_hyp(gs, i + 1, m[k].0, after));
                assert(kend == i + 1 + ser_str_body(m[k].0).len() + 1);
                assert(gs.skip(i + 1) == ser_str_body(m[k].0) + seq![34u8] + after);
                assert(gs.skip(kend as int) =~= gs.skip(i + 1).skip(
                    ser_str_body(m[k].0).len() as int + 1,
                ));
                assert(gs.skip(i + 1).skip(ser_str_body(m[k].0).len() as int + 1) =~= after);
                assert(gs.skip(kend as int).len() == gs.len() - kend);
                assert(gs.skip(kend as int)[0] == gs[kend as int]);
                assert(after[0] == 58);
            }
        }
        let colon_pos = skip_ws(s, kend);
        if colon_pos >= s.len() || s[colon_pos] != 58 {
            return None;
        }
        let vstart = skip_ws(s, colon_pos + 1);
        proof {
            assert forall|j: JsonData, rest: Seq<u8>|
                parse_hyp(gs, pos as int, j, rest) && jdepth(j) < depth implies {
                let m = j->Obj_0;
                &&& colon_pos == kend
                &&& vstart == kend + 1
                &&& parse_hyp(
                    gs,
                    kend + 1,
                    m[k].1,
                    ser_members_tail(m.skip(k)) + seq![125u8] + rest,
                )
                &&& jdepth(m[k].1) < depth - 1
            } by {
                let m = j->Obj_0;
                assert(!is_ws(gs[kend as int]));
                assert(colon_pos == kend);
                let after_colon = ser_json(m[k].1) + (ser_members_tail(m.skip(k)) + seq![125u8]
                    + rest);
                assert(gs.skip(kend + 1) =~= gs.skip(kend as int).skip(1));
                assert(gs.skip(kend as int).skip(1) =~= after_colon);
                lemma_ser_shape(m[k].1);
                assert(kend + 1 < gs.len()) by {
                    assert(gs.skip(kend + 1).len() == gs.len() - (kend + 1));
                    assert(after_colon.len() >= 1);
                }
                assert(gs.skip(kend + 1)[0] == gs[kend + 1]);
                assert(after_colon[0] == ser_json(m[k].1)[0]);
                assert(!is_ws(gs[kend + 1]));
                assert(vstart == kend + 1);
                let t = ser_members_tail(m.skip(k)) + seq![125u8] + rest;
                if m.skip(k).len() <= 1 {
                    assert(t[0] == 125);
                } else {
                    assert(t[0] == 44);
                }
                assert(num_cont_ok(t));
                lemma_jdepth_members_ge(m, k);
                assert(jdepth(j) == 1 + jdepth_members(m));
            }
        }
        if vstart >= s.len() {
            proof {
                assert forall|j: JsonData, rest: Seq<u8>|
                    parse_hyp(gs, pos as int, j, rest) && jdepth(j) < depth implies false by {
                    let m = j->Obj_0;
                    assert(gs.skip(vstart as int).len() == gs.len() - vstart);
                    assert((ser_json(m[k].1) + (ser_members_tail(m.skip(k)) + seq![125u8]
                        + rest)).len() >= 1) by {
                        lemma_ser_shape(m[k].1);
                    }
                    assert(gs.skip(kend + 1) == ser_json(m[k].1) + (ser_members_tail(m.skip(k))
                        + seq![125u8] + rest));
                }
            }
            return None;
        }
        match parse_json_at(s, vstart, depth - 1) {
            None => {
                proof {
                    assert forall|j: JsonData, rest: Seq<u8>|
                        parse_hyp(gs, pos as int, j, rest) && jdepth(j) < depth implies false by {
                        let m = j->Obj_0;
                        assert(parse_hyp(
                            gs,
                            vstart as int,
                            m[k].1,
                            ser_members_tail(m.skip(k)) + seq![125u8] + rest,
                        ) && jdepth(m[k].1) < depth - 1);
                    }
                }
                return None;
            },
            Some((v, vend)) => {
                let ghost pre = mems@;
                let ghost keyv = key@;
                mems.push((key, v));
                i = vend;
                proof {
                    assert(mems@ == pre.push((mems@[k as int].0, v)));
                    assert(mems@.take(k) =~= pre);
                    assert forall|j: JsonData, rest: Seq<u8>|
                        parse_hyp(gs, pos as int, j, rest) && jdepth(j) < depth implies {
                        let m = j->Obj_0;
                        &&& view_json_members(mems@) == m.take(k + 1)
                        &&& gs.skip(i as int) == ser_members_tail(m.skip(k)) + seq![125u8] + rest
                    } by {
                        let m = j->Obj_0;
                        assert(parse_hyp(
                            gs,
                            vstart as int,
                            m[k].1,
                            ser_members_tail(m.skip(k)) + seq![125u8] + rest,
                        ) && jdepth(m[k].1) < depth - 1);
                        assert(v@ == m[k].1);
                        assert(keyv == m[k].0);
                        lemma_view_json_members(mems@);
                        lemma_view_json_members(pre);
                        assert(view_json_members(pre) == m.take(k));
                        assert(view_json_members(mems@) =~= m.take(k + 1)) by {
                            assert(forall|q: int| 0 <= q < k ==> mems@[q] == pre[q]);
                            assert(forall|q: int|
                                0 <= q < k ==> view_json_members(mems@)[q] == view_json_members(
                                    pre,
                                )[q]);
                            assert(mems@[k as int].0@ == keyv && mems@[k as int].1 == v);
                            assert(view_json_members(mems@)[k] == (keyv, view_json(v)));
                        }
                        assert(gs.skip(vstart as int) == ser_json(m[k].1) + (ser_members_tail(
                            m.skip(k),
                        ) + seq![125u8] + rest));
                        assert(gs.skip(i as int) =~= gs.skip(vstart as int).skip(
                            ser_json(m[k].1).len() as int,
                        ));
                        assert(gs.skip(vstart as int).skip(ser_json(m[k].1).len() as int)
                            =~= ser_members_tail(m.skip(k)) + seq![125u8] + rest);
                    }
                }
            },
        }
        let i2 = skip_ws(s, i);
        proof {
            assert forall|j: JsonData, rest: Seq<u8>|
                parse_hyp(gs, pos as int, j, rest) && jdepth(j) < depth implies i2 == i && i
                < gs.len() && gs[i as int] == (if k + 1 == j->Obj_0.len() {
                125u8
            } else {
                44u8
            }) by {
                let m = j->Obj_0;
                let t = ser_members_tail(m.skip(k)) + seq![125u8] + rest;
                assert(gs.skip(i as int).len() == gs.len() - i);
                assert(t.len() >= 1);
                assert(gs.skip(i as int)[0] == gs[i as int]);
                assert(m.skip(k).len() == m.len() - k);
                if k + 1 == m.len() {
                    assert(t[0] == 125);
                } else {
                    assert(t[0] == 44);
                }
                assert(!is_ws(gs[i as int]));
            }
        }
        let i_before = i;
        if i2 >= s.len() {
            proof {
                assert forall|j: JsonData, rest: Seq<u8>|
                    parse_hyp(gs, pos as int, j, rest) && jdepth(j) < depth implies false by {
                    assert(i2 == i && i < gs.len());
                }
            }
            return None;
        }
        let c2 = s[i2];
        if c2 == 44 {
            let i4 = skip_ws(s, i2 + 1);
            proof {
                assert forall|j: JsonData, rest: Seq<u8>|
                    parse_hyp(gs, pos as int, j, rest) && jdepth(j) < depth implies {
                    let m = j->Obj_0;
                    &&& k + 1 < m.len()
                    &&& i4 == i2 + 1
                    &&& view_json_members(mems@) == m.take(k + 1)
                    &&& gs.skip(i2 + 1) == ser_members(m.skip(k + 1)) + seq![125u8] + rest
                } by {
                    let m = j->Obj_0;
                    assert(i2 == i);
                    assert(k + 1 != m.len());
                    let c3 = m.skip(k);
                    assert(c3.len() >= 2);
                    assert(ser_members_tail(c3) == seq![44u8] + ser_members(
                        c3.subrange(1, c3.len() as int),
                    ));
                    assert(c3.subrange(1, c3.len() as int) =~= m.skip(k + 1));
                    assert(gs.skip(i as int) =~= seq![44u8] + (ser_members(m.skip(k + 1))
                        + seq![125u8] + rest));
                    assert(gs.skip(i2 + 1) =~= gs.skip(i2 as int).skip(1));
                    assert(gs.skip(i2 as int).skip(1) =~= ser_members(m.skip(k + 1)) + seq![125u8]
                        + rest);
                    lemma_ser_members_head(m.skip(k + 1));
                    assert(i2 + 1 < gs.len()) by {
                        assert(gs.skip(i2 + 1).len() == gs.len() - (i2 + 1));
                        assert((ser_members(m.skip(k + 1)) + seq![125u8] + rest).len() >= 1);
                    }
                    assert(gs.skip(i2 + 1)[0] == gs[i2 + 1]);
                    assert((ser_members(m.skip(k + 1)) + seq![125u8] + rest)[0] == 34) by {
                        assert(ser_string(m.skip(k + 1)[0].0)[0] == 34);
                    }
                    assert(!is_ws(gs[i2 + 1]));
                }
            }
            i = i4;
        } else if c2 == 125 {
            proof {
                assert forall|j: JsonData, rest: Seq<u8>|
                    parse_hyp(gs, pos as int, j, rest) && jdepth(j) < depth implies view_json(
                    JsonValue::Obj(mems),
                ) == j && i2 + 1 == pos + ser_json(j).len() by {
                    let m = j->Obj_0;
                    assert(i2 == i);
                    assert(k + 1 == m.len());
                    assert(view_json_members(mems@) == m.take(k + 1));
                    assert(m.take(k + 1) =~= m);
                    let t = ser_members_tail(m.skip(k)) + seq![125u8] + rest;
                    assert(m.skip(k).len() == 1);
                    assert(t =~= seq![125u8] + rest);
                    assert(gs.skip(i as int).len() == gs.len() - i);
                    assert(gs.skip(pos as int).len() == gs.len() - pos);
                    assert(gs.len() - i == 1 + rest.len());
                    assert(gs.len() - pos == ser_json(j).len() + rest.len());
                }
            }
            return Some((JsonValue::Obj(mems), i2 + 1));
        } else {
            proof {
                assert forall|j: JsonData, rest: Seq<u8>|
                    parse_hyp(gs, pos as int, j, rest) && jdepth(j) < depth implies false by {
                    assert(i2 == i);
                    assert(gs[i as int] == 125 || gs[i as int] == 44);
                }
            }
            return None;
        }
        proof {
            assert(i > i_before);
        }
    }
}

/// Decodes a whole JSON text, allowing leading and trailing whitespace. The
/// canonical serialization of any value within the depth bound decodes back
/// to exactly that value.
pub fn decode_json(s: &Vec<u8>) -> (r: Option<JsonValue>)
    ensures
        forall|j: JsonData|
            s@ == #[trigger] ser_json(j) && jdepth(j) < JSON_DEPTH_LIMIT ==> (r matches Some(v)
                && v@ == j),
{
    let ghost gs = s@;
    let start = skip_ws(s, 0);
    proof {
        assert forall|j: JsonData|
            gs == ser_json(j) && jdepth(j) < JSON_DEPTH_LIMIT implies start == 0 && parse_hyp(
            gs,
            0,
            j,
            Seq::<u8>::empty(),
        ) by {
            lemma_ser_shape(j);
            assert(!is_ws(gs[0]));
            assert(gs.skip(0) =~= ser_json(j) + Seq::<u8>::empty());
        }
    }
    match parse_json_at(s, start, JSON_DEPTH_LIMIT) {
        None => {
            proof {
                assert forall|j: JsonData|
                    gs == ser_json(j) && jdepth(j) < JSON_DEPTH_LIMIT implies false by {
                    assert(parse_hyp(gs, start as int, j, Seq::<u8>::empty()));
                }
            }
            None
        },
        Some((v, end)) => {
            let fin = skip_ws(s, end);
            if fin == s.len() {
                proof {
                    assert forall|j: JsonData|
                        gs == ser_json(j) && jdepth(j) < JSON_DEPTH_LIMIT implies v@ == j by {
                        assert(parse_hyp(gs, start as int, j, Seq::<u8>::empty()));
                    }
                }
                Some(v)
            } else {
                proof {
                    assert forall|j: JsonData|
                        gs == ser_json(j) && jdepth(j) < JSON_DEPTH_LIMIT implies false by {
                        assert(parse_hyp(gs, start as int, j, Seq::<u8>::empty()));
                        assert(end == ser_json(j).len());
                        assert(end == gs.len());
                    }
                }
                None
            }
        },
    }
}

/// Helper for `parse_string_body`: one consumed escape re-establishes the
/// loop invariant, provided the new accumulator is one byte longer and the
/// consumed bytes are exactly `esc_byte` of that byte.
proof fn step_string_invariant(gs: Seq<u8>, pos: int, i: int, k: int, acc2: Seq<u8>, used: int)
    requires
        0 <= pos <= i <= gs.len(),
        k + 1 == acc2.len(),
        forall|b: Seq<u8>, rest: Seq<u8>|
            #[trigger] str_hyp(gs, pos, b, rest) ==> {
                &&& 0 <= k < b.len()
                &&& acc2 == b.take(k + 1)
                &&& i == pos + ser_str_body(b.take(k)).len()
                &&& gs.skip(i) == ser_str_body(b.skip(k)) + seq![34u8] + rest
                &&& esc_byte(b[k]).len() == used
            },
    ensures
        forall|b: Seq<u8>, rest: Seq<u8>|
            #[trigger] str_hyp(gs, pos, b, rest) ==> {
                let k2 = acc2.len() as int;
                &&& k2 <= b.len()
                &&& acc2 == b.take(k2)
                &&& i + used == pos + ser_str_body(b.take(k2)).len()
                &&& gs.skip(i + used) == ser_str_body(b.skip(k2)) + seq![34u8] + rest
            },
{
    assert forall|b: Seq<u8>, rest: Seq<u8>| #[trigger] str_hyp(gs, pos, b, rest) implies {
        let k2 = acc2.len() as int;
        &&& k2 <= b.len()
        &&& acc2 == b.take(k2)
        &&& i + used == pos + ser_str_body(b.take(k2)).len()
        &&& gs.skip(i + used) == ser_str_body(b.skip(k2)) + seq![34u8] + rest
    } by {
        assert(b.take(k + 1) =~= b.take(k) + seq![b[k]]);
        lemma_ser_str_body_concat(b.take(k), seq![b[k]]);
        assert(seq![b[k]].subrange(1, 1) =~= Seq::<u8>::empty());
        assert(ser_str_body(Seq::<u8>::empty()) == Seq::<u8>::empty());
        assert(esc_byte(b[k]) + Seq::<u8>::empty() =~= esc_byte(b[k]));
        assert(ser_str_body(seq![b[k]]) =~= esc_byte(b[k]));
        assert(ser_str_body(b.take(k + 1)).len() == ser_str_body(b.take(k)).len() + used);
        assert(b.skip(k)[0] == b[k]);
        assert(b.skip(k).subrange(1, b.skip(k).len() as int) =~= b.skip(k + 1));
        assert(ser_str_body(b.skip(k)) == esc_byte(b[k]) + ser_str_body(b.skip(k + 1)));
        assert(gs.skip(i + used) =~= gs.skip(i).skip(used));
        assert(gs.skip(i).skip(used) =~= ser_str_body(b.skip(k + 1)) + seq![34u8] + rest);
    }
}

} // verus!

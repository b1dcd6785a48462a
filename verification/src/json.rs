//! The JSON texts that the answer reader is stated on: compact texts of
//! integers, plain strings, arrays and objects, and what a reader gives
//! back for them.

use vstd::prelude::*;

use crate::llm::{
    answer_corrections, field_number, field_str, field_u64, member, member_in, read_correction, read_corrections,
    JsonNumber, JsonValue,
};

verus! {

/// The character of the decimal digit `d`.
pub open spec fn digit_char(d: nat) -> char {
    (48 + d) as char
}

/// The decimal digits of `n`, without leading zeros.
pub open spec fn decimal_text(n: nat) -> Seq<char>
    decreases n,
{
    if n < 10 {
        seq![digit_char(n)]
    } else {
        decimal_text(n / 10).push(digit_char(n % 10))
    }
}

/// A string that a JSON text can hold between quotes as it is: no quote,
/// no backslash and no control character.
pub open spec fn plain_string(s: Seq<char>) -> bool {
    forall|i: int| 0 <= i < s.len() ==> #[trigger] s[i] != '"' && s[i] != '\\' && (s[i] as u32) >= 32
}

/// The text of a string: its characters between quotes.
pub open spec fn string_text(s: Seq<char>) -> Seq<char> {
    seq!['"'] + s + seq!['"']
}

/// The text of an integer.
pub open spec fn number_text(n: JsonNumber) -> Seq<char> {
    match n {
        JsonNumber::PosInt(u) => decimal_text(u as nat),
        JsonNumber::NegInt(i) => seq!['-'] + decimal_text((0 - i) as nat),
        JsonNumber::Float(_) => seq![],
    }
}

/// The compact JSON text of `v`: no white space, members and items
/// separated by commas.
pub open spec fn json_text(v: JsonValue) -> Seq<char>
    decreases v, 0int,
{
    match v {
        JsonValue::Null => seq!['n', 'u', 'l', 'l'],
        JsonValue::Bool(b) => if b {
            seq!['t', 'r', 'u', 'e']
        } else {
            seq!['f', 'a', 'l', 's', 'e']
        },
        JsonValue::Number(n) => number_text(n),
        JsonValue::String(s) => string_text(s@),
        JsonValue::Array(items) => seq!['['] + items_text(items@) + seq![']'],
        JsonValue::Object(members) => seq!['{'] + members_text(members@) + seq!['}'],
    }
}

/// The texts of `items`, separated by commas.
pub open spec fn items_text(items: Seq<JsonValue>) -> Seq<char>
    decreases items, 1int,
{
    if items.len() == 0 {
        seq![]
    } else if items.len() == 1 {
        json_text(items[0])
    } else {
        json_text(items[0]) + seq![','] + items_text(items.subrange(1, items.len() as int))
    }
}

/// The texts of `members`, `"name":value`, separated by commas.
pub open spec fn members_text(members: Seq<(String, JsonValue)>) -> Seq<char>
    decreases members, 1int,
{
    if members.len() == 0 {
        seq![]
    } else {
        let first = string_text(members[0].0@) + seq![':'] + json_text(members[0].1);
        if members.len() == 1 {
            first
        } else {
            first + seq![','] + members_text(members.subrange(1, members.len() as int))
        }
    }
}

/// No two members of `members` have the same name.
pub open spec fn distinct_names(members: Seq<(String, JsonValue)>) -> bool {
    forall|i: int, j: int| 0 <= i < j < members.len() ==> #[trigger] members[i].0@ != #[trigger] members[j].0@
}

/// `v` is a value whose text a reader takes as it is: integers (negative
/// ones below zero), plain strings, and arrays and objects nested at most
/// `depth` deep, the members of each object named apart.
pub open spec fn json_plain(v: JsonValue, depth: nat) -> bool
    decreases v, 0int,
{
    match v {
        JsonValue::Null => true,
        JsonValue::Bool(_) => true,
        JsonValue::Number(n) => match n {
            JsonNumber::PosInt(_) => true,
            JsonNumber::NegInt(i) => i < 0,
            JsonNumber::Float(_) => false,
        },
        JsonValue::String(s) => plain_string(s@),
        JsonValue::Array(items) => depth > 0 && items_plain(items@, (depth - 1) as nat),
        JsonValue::Object(members) => depth > 0 && distinct_names(members@) && members_plain(
            members@,
            (depth - 1) as nat,
        ),
    }
}

/// Every item of `items` is plain within `depth`.
pub open spec fn items_plain(items: Seq<JsonValue>, depth: nat) -> bool
    decreases items, 1int,
{
    items.len() == 0 || (json_plain(items[0], depth) && items_plain(items.subrange(1, items.len() as int), depth))
}

/// Every member of `members` has a plain name and a value plain within
/// `depth`.
pub open spec fn members_plain(members: Seq<(String, JsonValue)>, depth: nat) -> bool
    decreases members, 1int,
{
    members.len() == 0 || (plain_string(members[0].0@) && json_plain(members[0].1, depth) && members_plain(
        members.subrange(1, members.len() as int),
        depth,
    ))
}

/// How deep the values whose texts the reader is stated on may nest.
pub open spec fn plain_depth() -> nat {
    100
}

/// `w` holds what `v` holds: the same leaves, the same items in the same
/// order, and for objects the same names, each with the same value, in
/// whatever order the members come.
pub open spec fn json_same(w: JsonValue, v: JsonValue) -> bool
    decreases v, 0int,
{
    match v {
        JsonValue::Null => w is Null,
        JsonValue::Bool(b) => w matches JsonValue::Bool(c) && c == b,
        JsonValue::Number(n) => w matches JsonValue::Number(m) && m == n,
        JsonValue::String(s) => w matches JsonValue::String(t) && t@ == s@,
        JsonValue::Array(items) => w matches JsonValue::Array(ws) && items_same(ws@, items@),
        JsonValue::Object(members) => w matches JsonValue::Object(wm) && members_same(wm@, members@) && forall|
            k: Seq<char>,
        | #[trigger] member_in(wm@, k) is Some ==> member_in(members@, k) is Some,
    }
}

/// `ws` and `vs` have the same length and hold the same values, in order.
pub open spec fn items_same(ws: Seq<JsonValue>, vs: Seq<JsonValue>) -> bool
    decreases vs, 1int,
{
    ws.len() == vs.len() && (vs.len() == 0 || (json_same(ws[0], vs[0]) && items_same(
        ws.subrange(1, ws.len() as int),
        vs.subrange(1, vs.len() as int),
    )))
}

/// Each member of `vs` is found by its name among `wm`, with the same
/// value.
pub open spec fn members_same(wm: Seq<(String, JsonValue)>, vs: Seq<(String, JsonValue)>) -> bool
    decreases vs, 1int,
{
    vs.len() == 0 || ((match member_in(wm, vs[0].0@) {
        Some(x) => json_same(x, vs[0].1),
        None => false,
    }) && members_same(wm, vs.subrange(1, vs.len() as int)))
}

/// Items held the same are held the same one by one.
pub proof fn lemma_items_same_index(ws: Seq<JsonValue>, vs: Seq<JsonValue>)
    requires
        items_same(ws, vs),
    ensures
        ws.len() == vs.len(),
        forall|i: int| 0 <= i < vs.len() ==> json_same(#[trigger] ws[i], vs[i]),
    decreases vs.len(),
{
    if vs.len() > 0 {
        let wr = ws.subrange(1, ws.len() as int);
        let vr = vs.subrange(1, vs.len() as int);
        lemma_items_same_index(wr, vr);
        assert forall|i: int| 0 <= i < vs.len() implies json_same(#[trigger] ws[i], vs[i]) by {
            if i > 0 {
                assert(ws[i] == wr[i - 1]);
                assert(vs[i] == vr[i - 1]);
            }
        }
    }
}

/// A member found by name in `vs` is found by that name in `wm`, with the
/// same value.
proof fn lemma_members_same_member(wm: Seq<(String, JsonValue)>, vs: Seq<(String, JsonValue)>, k: Seq<char>)
    requires
        members_same(wm, vs),
        member_in(vs, k) is Some,
    ensures
        member_in(wm, k) is Some,
        json_same(member_in(wm, k)->Some_0, member_in(vs, k)->Some_0),
    decreases vs.len(),
{
    if vs[0].0@ != k {
        assert(vs.drop_first() == vs.subrange(1, vs.len() as int));
        lemma_members_same_member(wm, vs.subrange(1, vs.len() as int), k);
    }
}

/// Values held the same have members held the same.
pub proof fn lemma_same_member(w: JsonValue, v: JsonValue, k: Seq<char>)
    requires
        json_same(w, v),
    ensures
        json_same(member(w, k), member(v, k)),
{
    match v {
        JsonValue::Object(members) => {
            let wm = w->Object_0;
            if member_in(members@, k) is Some {
                lemma_members_same_member(wm@, members@, k);
            } else {
                assert(member_in(wm@, k) is None);
            }
        },
        _ => {},
    }
}

/// Values held the same give the same fields.
pub proof fn lemma_same_fields(w: JsonValue, v: JsonValue, k: Seq<char>)
    requires
        json_same(w, v),
    ensures
        field_u64(w, k) == field_u64(v, k),
        field_str(w, k) == field_str(v, k),
        field_number(w, k) == field_number(v, k),
{
    lemma_same_member(w, v, k);
}

/// An entry held the same reads as the same correction.
pub proof fn lemma_same_correction(w: JsonValue, v: JsonValue)
    requires
        json_same(w, v),
    ensures
        read_correction(w) == read_correction(v),
{
    lemma_same_fields(w, v, "line_number"@);
    lemma_same_fields(w, v, "original_text"@);
    lemma_same_fields(w, v, "corrected_text"@);
    lemma_same_fields(w, v, "start_column"@);
    lemma_same_fields(w, v, "end_column"@);
    lemma_same_fields(w, v, "confidence"@);
}

/// Entries held the same one by one read as the same corrections.
pub proof fn lemma_same_corrections(ws: Seq<JsonValue>, vs: Seq<JsonValue>)
    requires
        ws.len() == vs.len(),
        forall|i: int| 0 <= i < vs.len() ==> json_same(#[trigger] ws[i], vs[i]),
    ensures
        read_corrections(ws) == read_corrections(vs),
    decreases vs.len(),
{
    if vs.len() > 0 {
        let wd = ws.drop_last();
        let vd = vs.drop_last();
        assert forall|i: int| 0 <= i < vd.len() implies json_same(#[trigger] wd[i], vd[i]) by {
            assert(wd[i] == ws[i]);
            assert(json_same(ws[i], vs[i]));
        }
        lemma_same_corrections(wd, vd);
        assert(json_same(ws[vs.len() - 1], vs[vs.len() - 1]));
        lemma_same_correction(ws.last(), vs.last());
    }
}

/// Answers held the same give the same corrections.
pub proof fn lemma_same_answer(w: JsonValue, v: JsonValue)
    requires
        json_same(w, v),
    ensures
        answer_corrections(w) == answer_corrections(v),
{
    lemma_same_member(w, v, "corrections"@);
    let mw = member(w, "corrections"@);
    let mv = member(v, "corrections"@);
    match mv {
        JsonValue::Array(items) => {
            let ws = mw->Array_0;
            lemma_items_same_index(ws@, items@);
            lemma_same_corrections(ws@, items@);
        },
        _ => {},
    }
}

} // verus!

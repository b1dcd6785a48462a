//! Tasks for the language model and the reading of its answer.

use vstd::prelude::*;

use crate::jobs::github::{CorrectionDetail, CorrectionView, SpellingCorrection};
use crate::json::{json_plain, json_same, json_text, lemma_same_answer, plain_depth};

verus! {

#[verifier::external_type_specification]
#[verifier::external_body]
pub struct ExPromptError(rig::completion::PromptError);

/// Error types for LLM operations
#[derive(Debug)]
pub enum LlmError {
    /// Prompt error
    PromptError(rig::completion::PromptError),
    /// Failed to parse response
    ParseError(String),
}

/// Configuration for LLM tasks
pub struct LlmTaskConfig {
    /// The model to use (e.g. "deepseek-ai/DeepSeek-R1")
    pub model: String,
    /// System prompt/preamble for the task
    pub system_prompt: String,
    /// Input content to process
    pub content: String,
}

/// A JSON number as a JSON reader keeps it: a non-negative integer, a
/// negative integer, or any other number, held by the bits of its IEEE 754
/// double.
#[derive(PartialEq, Eq, Structural, Clone, Copy, Debug)]
pub enum JsonNumber {
    /// An integer from 0 up
    PosInt(u64),
    /// An integer below 0
    NegInt(i64),
    /// Any other number, by the bits of its `f64`
    Float(u64),
}

/// A JSON value. The members of an object are kept in a list; a reader
/// that has read a JSON text holds each name once.
pub enum JsonValue {
    Null,
    Bool(bool),
    Number(JsonNumber),
    String(String),
    Array(Vec<JsonValue>),
    Object(Vec<(String, JsonValue)>),
}

/// The member `key` among the members `entries` of an object (the first
/// one of that name), or `None`.
pub open spec fn member_in(entries: Seq<(String, JsonValue)>, key: Seq<char>) -> Option<JsonValue>
    decreases entries.len(),
{
    if entries.len() == 0 {
        None
    } else if entries[0].0@ == key {
        Some(entries[0].1)
    } else {
        member_in(entries.drop_first(), key)
    }
}

/// `value[key]` as `serde_json` reads it: the member `key` of an object;
/// `Null` where there is no such member or `value` is not an object.
pub open spec fn member(value: JsonValue, key: Seq<char>) -> JsonValue {
    match value {
        JsonValue::Object(entries) => match member_in(entries@, key) {
            Some(v) => v,
            None => JsonValue::Null,
        },
        _ => JsonValue::Null,
    }
}

/// The member `key` of `value`, where `value` is an object that has one.
pub fn get_member<'a>(value: &'a JsonValue, key: &str) -> (r: Option<&'a JsonValue>)
    ensures
        (match *value {
            JsonValue::Object(entries) => match member_in(entries@, key@) {
                Some(v) => r matches Some(x) && *x == v,
                None => r is None,
            },
            _ => r is None,
        }),
        r matches Some(x) ==> member(*value, key@) == *x,
{
    match value {
        JsonValue::Object(entries) => {
            let name = String::from_str(key);
            let mut i: usize = 0;
            assert(entries@.skip(0) == entries@);
            while i < entries.len()
                invariant
                    i <= entries.len(),
                    name@ == key@,
                    *value == JsonValue::Object(*entries),
                    member_in(entries@, key@) == member_in(entries@.skip(i as int), key@),
                decreases entries.len() - i,
            {
                assert(entries@.skip(i as int).drop_first() == entries@.skip(i + 1));
                if entries[i].0 == name {
                    assert(entries@.skip(i as int)[0] == entries@[i as int]);
                    assert(member_in(entries@.skip(i as int), key@) == Some(entries@[i as int].1));

                    return Some(&entries[i].1);
                }
                i = i + 1;
            }
            None
        },
        _ => None,
    }
}

/// `value.as_u64()` for the member `key`: a non-negative integer.
pub open spec fn field_u64(value: JsonValue, key: Seq<char>) -> Option<u64> {
    match member(value, key) {
        JsonValue::Number(JsonNumber::PosInt(n)) => Some(n),
        _ => None,
    }
}

/// `value.as_str()` for the member `key`: a string.
pub open spec fn field_str(value: JsonValue, key: Seq<char>) -> Option<Seq<char>> {
    match member(value, key) {
        JsonValue::String(s) => Some(s@),
        _ => None,
    }
}

/// `value.as_f64()` for the member `key`: any number.
pub open spec fn field_number(value: JsonValue, key: Seq<char>) -> Option<JsonNumber> {
    match member(value, key) {
        JsonValue::Number(n) => Some(n),
        _ => None,
    }
}

/// The correction that one entry of "corrections" describes, or the
/// message for the first of its fields that is missing or of the wrong
/// kind.
pub open spec fn read_correction(entry: JsonValue) -> Result<CorrectionView, Seq<char>> {
    match field_u64(entry, "line_number"@) {
        None => Err("Missing or invalid 'line_number'"@),
        Some(line_number) => match field_str(entry, "original_text"@) {
            None => Err("Missing 'original_text'"@),
            Some(original_text) => match field_str(entry, "corrected_text"@) {
                None => Err("Missing 'corrected_text'"@),
                Some(corrected_text) => match field_u64(entry, "start_column"@) {
                    None => Err("Missing or invalid 'start_column'"@),
                    Some(start_column) => match field_u64(entry, "end_column"@) {
                        None => Err("Missing or invalid 'end_column'"@),
                        Some(end_column) => match field_number(entry, "confidence"@) {
                            None => Err("Missing or invalid 'confidence'"@),
                            Some(confidence) => Ok(
                                CorrectionView {
                                    line_number: line_number as usize,
                                    original_text,
                                    corrected_text,
                                    start_column: start_column as usize,
                                    end_column: end_column as usize,
                                    confidence,
                                },
                            ),
                        },
                    },
                },
            },
        },
    }
}

/// The corrections that `entries` describe, in order, or the message of
/// the first entry that cannot be read.
pub open spec fn read_corrections(entries: Seq<JsonValue>) -> Result<Seq<CorrectionView>, Seq<char>>
    decreases entries.len(),
{
    if entries.len() == 0 {
        Ok(seq![])
    } else {
        match read_corrections(entries.drop_last()) {
            Err(m) => Err(m),
            Ok(done) => match read_correction(entries.last()) {
                Err(m) => Err(m),
                Ok(c) => Ok(done.push(c)),
            },
        }
    }
}

/// The corrections of an answer: those of its "corrections" array, and
/// none where it has no such array.
pub open spec fn answer_corrections(answer: JsonValue) -> Result<Seq<CorrectionView>, Seq<char>> {
    match member(answer, "corrections"@) {
        JsonValue::Array(items) => read_corrections(items@),
        _ => Ok(seq![]),
    }
}

/// The views of a list of corrections.
pub open spec fn correction_views(details: Seq<CorrectionDetail>) -> Seq<CorrectionView> {
    details.map_values(|d: CorrectionDetail| d@)
}

/// `value.as_u64()` of a member.
fn member_u64(value: Option<&JsonValue>) -> (r: Option<u64>)
    ensures
        r == (match value {
            Some(JsonValue::Number(JsonNumber::PosInt(n))) => Some(*n),
            _ => None::<u64>,
        }),
{
    match value {
        Some(JsonValue::Number(JsonNumber::PosInt(n))) => Some(*n),
        _ => None,
    }
}

/// `value.as_str()` of a member, as an owned string.
fn member_str(value: Option<&JsonValue>) -> (r: Option<String>)
    ensures
        (match value {
            Some(JsonValue::String(s)) => r matches Some(t) && t@ == s@,
            _ => r is None,
        }),
{
    match value {
        Some(JsonValue::String(s)) => Some(s.clone()),
        _ => None,
    }
}

/// The number of a member.
fn member_number(value: Option<&JsonValue>) -> (r: Option<JsonNumber>)
    ensures
        r == (match value {
            Some(JsonValue::Number(n)) => Some(*n),
            _ => None::<JsonNumber>,
        }),
{
    match value {
        Some(JsonValue::Number(n)) => Some(*n),
        _ => None,
    }
}

/// Reads one entry of "corrections".
fn read_correction_entry(entry: &JsonValue) -> (r: Result<CorrectionDetail, String>)
    ensures
        (match read_correction(*entry) {
            Ok(c) => r matches Ok(d) && d@ == c,
            Err(m) => r matches Err(e) && e@ == m,
        }),
{
    let line_number = match member_u64(get_member(entry, "line_number")) {
        Some(n) => n,
        None => return Err(String::from_str("Missing or invalid 'line_number'")),
    };
    let original_text = match member_str(get_member(entry, "original_text")) {
        Some(s) => s,
        None => return Err(String::from_str("Missing 'original_text'")),
    };
    let corrected_text = match member_str(get_member(entry, "corrected_text")) {
        Some(s) => s,
        None => return Err(String::from_str("Missing 'corrected_text'")),
    };
    let start_column = match member_u64(get_member(entry, "start_column")) {
        Some(n) => n,
        None => return Err(String::from_str("Missing or invalid 'start_column'")),
    };
    let end_column = match member_u64(get_member(entry, "end_column")) {
        Some(n) => n,
        None => return Err(String::from_str("Missing or invalid 'end_column'")),
    };
    let confidence = match member_number(get_member(entry, "confidence")) {
        Some(n) => n,
        None => return Err(String::from_str("Missing or invalid 'confidence'")),
    };
    Ok(CorrectionDetail {
        line_number: line_number as usize,
        original_text,
        corrected_text,
        start_column: start_column as usize,
        end_column: end_column as usize,
        confidence,
    })
}

#[verifier::external_type_specification]
#[verifier::external_body]
pub struct ExJsonValue(serde_json::Value);

#[verifier::external_type_specification]
#[verifier::external_body]
pub struct ExJsonNumber(serde_json::Number);

/// What `serde_json::from_str::<serde_json::Value>` reads from `text`: the
/// value, in the library's model of JSON, or the text of its error.
pub uninterp spec fn json_read(text: Seq<char>) -> Result<JsonValue, Seq<char>>;

/// `serde_json::from_str::<serde_json::Value>`, with the value turned into
/// the library's model and the error written out as text. Trusted: the
/// outcome is `json_read` of the text. Where the text is the compact JSON
/// text of a plain value (integers, strings without escapes, arrays and
/// objects with names apart, nested at most `plain_depth()` deep), the
/// reader succeeds and gives back that value: every item of every array,
/// in order, and every member of every object (a `serde_json` map, whose
/// members may come in another order). For other texts the outcome is
/// named, not stated.
#[verifier::external_body]
fn read_json(text: &str) -> (r: Result<JsonValue, String>)
    ensures
        forall|v: JsonValue| json_plain(v, plain_depth()) && #[trigger] json_text(v) == text@ ==> (r is Ok && json_same(
            r->Ok_0,
            v,
        )),
        (match r {
            Ok(v) => json_read(text@) == Ok::<JsonValue, Seq<char>>(v),
            Err(e) => json_read(text@) == Err::<JsonValue, Seq<char>>(e@),
        }),
{
    match serde_json::from_str::<serde_json::Value>(text) {
        Ok(v) => Ok(json_value_of(v)),
        Err(e) => Err(e.to_string()),
    }
}

/// A `serde_json::Value` in the library's model, variant for variant.
#[verifier::external_body]
fn json_value_of(v: serde_json::Value) -> JsonValue {
    match v {
        serde_json::Value::Null => JsonValue::Null,
        serde_json::Value::Bool(b) => JsonValue::Bool(b),
        serde_json::Value::Number(n) => JsonValue::Number(json_number_of(&n)),
        serde_json::Value::String(s) => JsonValue::String(s),
        serde_json::Value::Array(items) => JsonValue::Array(items.into_iter().map(json_value_of).collect()),
        serde_json::Value::Object(members) => JsonValue::Object(members.into_iter().map(json_member_of).collect()),
    }
}

/// A member of a `serde_json` object in the library's model.
#[verifier::external_body]
fn json_member_of(member: (String, serde_json::Value)) -> (String, JsonValue) {
    (member.0, json_value_of(member.1))
}

/// A `serde_json::Number` in the library's model: its kind (told apart by
/// `as_u64` and `as_i64`, as the number's own variants are private) and its
/// value.
#[verifier::external_body]
fn json_number_of(n: &serde_json::Number) -> JsonNumber {
    match (n.as_u64(), n.as_i64()) {
        (Some(u), _) => JsonNumber::PosInt(u),
        (None, Some(i)) => JsonNumber::NegInt(i),
        (None, None) => JsonNumber::Float(n.as_f64().unwrap_or_default().to_bits()),
    }
}

/// What the answer `answer` gives: `Ok` with the corrections of the chunk
/// of `file_path` from `start_line` to `end_line`, or the error.
pub open spec fn answer_outcome_ok(answer: Result<JsonValue, Seq<char>>, r: Result<SpellingCorrection, LlmError>, file_path: String, start_line: usize, end_line: usize) -> bool {
    match answer {
        Err(e) => r matches Err(LlmError::ParseError(m)) && m@ == "Failed to parse JSON: "@ + e,
        Ok(v) => match answer_corrections(v) {
            Err(msg) => r matches Err(LlmError::ParseError(m)) && m@ == msg,
            Ok(cs) => r matches Ok(sc) && {
                &&& sc.file_path == file_path
                &&& sc.start_line == start_line
                &&& sc.end_line == end_line
                &&& correction_views(sc.corrections@) == cs
            },
        },
    }
}

/// The text of an error, as a value.
pub open spec fn err_text<T>(r: Result<T, String>) -> Result<T, Seq<char>> {
    match r {
        Ok(v) => Ok(v),
        Err(e) => Err(e@),
    }
}

/// Parse the LLM response into a SpellingCorrection
pub fn parse_spelling_correction(
    llm_response: &str,
    file_path: String,
    start_line: usize,
    end_line: usize,
) -> (r: Result<SpellingCorrection, LlmError>)
    ensures
        answer_outcome_ok(json_read(llm_response@), r, file_path, start_line, end_line),
        forall|v: JsonValue| json_plain(v, plain_depth()) && #[trigger] json_text(v) == llm_response@
            ==> answer_outcome_ok(Ok(v), r, file_path, start_line, end_line),
{
    let ghost path = file_path;
    let answer = read_json(llm_response);
    let r = parse_answer(answer, file_path, start_line, end_line);
    proof {
        assert forall|v: JsonValue| json_plain(v, plain_depth()) && #[trigger] json_text(v) == llm_response@ implies answer_outcome_ok(
            Ok(v),
            r,
            path,
            start_line,
            end_line,
        ) by {
            lemma_same_answer(answer->Ok_0, v);
        }
    }
    r
}

/// Every entry of the "corrections" array is kept, in order: where each
/// entry can be read, the answer gives exactly one correction per entry,
/// the `i`-th being what the `i`-th entry describes.
pub proof fn lemma_answer_keeps_every_entry(
    answer: JsonValue,
    r: Result<SpellingCorrection, LlmError>,
    file_path: String,
    start_line: usize,
    end_line: usize,
)
    requires
        answer_outcome_ok(Ok(answer), r, file_path, start_line, end_line),
        member(answer, "corrections"@) is Array,
        forall|i: int|
            0 <= i < member(answer, "corrections"@)->Array_0@.len() ==> #[trigger] read_correction(
                member(answer, "corrections"@)->Array_0@[i],
            ) is Ok,
    ensures
        r is Ok,
        r->Ok_0.corrections@.len() == member(answer, "corrections"@)->Array_0@.len(),
        forall|i: int|
            0 <= i < r->Ok_0.corrections@.len() ==> #[trigger] r->Ok_0.corrections@[i]@ == read_correction(
                member(answer, "corrections"@)->Array_0@[i],
            )->Ok_0,
{
    let items = member(answer, "corrections"@)->Array_0@;
    lemma_read_corrections_all(items);
    let cs = read_corrections(items)->Ok_0;
    let sc = r->Ok_0;
    assert(correction_views(sc.corrections@) == cs);
    assert forall|i: int| 0 <= i < sc.corrections@.len() implies #[trigger] sc.corrections@[i]@ == read_correction(items[i])->Ok_0 by {
        assert(correction_views(sc.corrections@)[i] == sc.corrections@[i]@);
    }
}

/// One entry that cannot be read fails the whole list: where the entries
/// before entry `j` can be read and entry `j` cannot, the list gives the
/// message of entry `j`, whatever follows it.
pub proof fn lemma_read_corrections_first_error(entries: Seq<JsonValue>, j: int)
    requires
        0 <= j < entries.len(),
        forall|i: int| 0 <= i < j ==> #[trigger] read_correction(entries[i]) is Ok,
        read_correction(entries[j]) is Err,
    ensures
        read_corrections(entries) == Err::<Seq<CorrectionView>, Seq<char>>(read_correction(entries[j])->Err_0),
{
    let head = entries.take(j);
    assert forall|i: int| 0 <= i < head.len() implies #[trigger] read_correction(head[i]) is Ok by {
        assert(head[i] == entries[i]);
    }
    lemma_read_corrections_all(head);
    let upto = entries.take(j + 1);
    assert(upto.drop_last() == head);
    assert(upto.last() == entries[j]);
    lemma_read_corrections_err(entries, j + 1);
}

/// Entries that can all be read give one correction each, in order.
pub proof fn lemma_read_corrections_all(entries: Seq<JsonValue>)
    requires
        forall|i: int| 0 <= i < entries.len() ==> #[trigger] read_correction(entries[i]) is Ok,
    ensures
        read_corrections(entries) is Ok,
        read_corrections(entries)->Ok_0.len() == entries.len(),
        forall|i: int|
            0 <= i < entries.len() ==> #[trigger] read_corrections(entries)->Ok_0[i] == read_correction(entries[i])->Ok_0,
    decreases entries.len(),
{
    if entries.len() > 0 {
        let d = entries.drop_last();
        assert forall|i: int| 0 <= i < d.len() implies #[trigger] read_correction(d[i]) is Ok by {
            assert(d[i] == entries[i]);
        }
        lemma_read_corrections_all(d);
        assert(read_correction(entries[entries.len() - 1]) is Ok);
        assert forall|i: int| 0 <= i < entries.len() implies #[trigger] read_corrections(entries)->Ok_0[i] == read_correction(entries[i])->Ok_0 by {
            if i < d.len() {
                assert(d[i] == entries[i]);
                assert(read_corrections(d)->Ok_0[i] == read_correction(d[i])->Ok_0);
            }
        }
    }
}

/// The corrections of an answer that a JSON reader has read: the value, or
/// the text of the reader's error.
pub fn parse_answer(
    llm_response: Result<JsonValue, String>,
    file_path: String,
    start_line: usize,
    end_line: usize,
) -> (r: Result<SpellingCorrection, LlmError>)
    ensures
        answer_outcome_ok(err_text(llm_response), r, file_path, start_line, end_line),
{
    let ghost given = llm_response;
    let response = match llm_response {
        Err(e) => {
            let mut m = String::from_str("Failed to parse JSON: ");
            m.append(e.as_str());
            return Err(LlmError::ParseError(m));
        },
        Ok(v) => v,
    };
    let mut corrections: Vec<CorrectionDetail> = Vec::new();
    match get_member(&response, "corrections") {
        Some(JsonValue::Array(items)) => {
            let mut i: usize = 0;
            proof {
                assert(items@.take(0) == Seq::<JsonValue>::empty());
                assert(correction_views(corrections@) == Seq::<CorrectionView>::empty());
            }
            while i < items.len()
                invariant
                    i <= items.len(),
                    member(response, "corrections"@) == JsonValue::Array(*items),
                    given == llm_response,
                    given == Ok::<JsonValue, String>(response),
                    read_corrections(items@.take(i as int)) == Ok::<Seq<CorrectionView>, Seq<char>>(correction_views(corrections@)),
                decreases items.len() - i,
            {
                assert(items@.take(i + 1).drop_last() == items@.take(i as int));
                assert(items@.take(i + 1).last() == items@[i as int]);
                match read_correction_entry(&items[i]) {
                    Err(m) => {
                        proof {
                            assert(read_corrections(items@.take(i + 1)) is Err);
                            lemma_read_corrections_err(items@, i + 1);
                            assert(member(response, "corrections"@) == JsonValue::Array(*items));
                            assert(answer_corrections(response) == read_corrections(items@));
                            assert(read_corrections(items@) == Err::<Seq<CorrectionView>, Seq<char>>(m@));
                        }
                        return Err(LlmError::ParseError(m));
                    },
                    Ok(d) => {
                        let ghost done = correction_views(corrections@);
                        corrections.push(d);
                        assert(correction_views(corrections@) == done.push(d@));
                    },
                }
                i = i + 1;
            }
            assert(items@.take(items.len() as int) == items@);
            assert(answer_corrections(response) == Ok::<Seq<CorrectionView>, Seq<char>>(correction_views(corrections@)));
        },
        _ => {
            proof {
                assert(!(member(response, "corrections"@) is Array));
                assert(correction_views(corrections@) == Seq::<CorrectionView>::empty());
                assert(answer_corrections(response) == Ok::<Seq<CorrectionView>, Seq<char>>(correction_views(corrections@)));
            }
        },
    }
    let r = Ok(SpellingCorrection { file_path, start_line, end_line, corrections });
    proof {
        assert(err_text(given) == Ok::<JsonValue, Seq<char>>(response));
    }
    r
}

/// Once an entry cannot be read, its message is the one for the whole list.
proof fn lemma_read_corrections_err(entries: Seq<JsonValue>, j: int)
    requires
        0 <= j <= entries.len(),
        read_corrections(entries.take(j)) is Err,
    ensures
        read_corrections(entries) == read_corrections(entries.take(j)),
    decreases entries.len() - j,
{
    if j < entries.len() {
        assert(entries.take(j + 1).drop_last() == entries.take(j));
        lemma_read_corrections_err(entries, j + 1);
    } else {
        assert(entries.take(j) == entries);
    }
}

} // verus!

//! The tool-calling prompt and the decoding of tool calls from generated text.
use crate::text::{chars_of, string_from_chars};
use vstd::prelude::*;
use vstd::string::*;

verus! {

#[verifier::external_type_specification]
#[verifier::external_body]
pub struct ExJsonValue(serde_json::Value);

/// The chat prompt that asks the model to route `query` to one of the tools
/// described by `tools_json`.
pub open spec fn tool_prompt(tools_json: Seq<char>, query: Seq<char>) -> Seq<char> {
    "<|im_start|>user\\n<tools>"@ + tools_json + "</tools>\\n"@ + query
        + "<|im_end|>\\n<|im_start|>assistant\\n"@
}

/// Renders the tool-routing prompt.
pub fn render_tool_prompt(tools_json: &str, query: &str) -> (r: String)
    ensures
        r@ == tool_prompt(tools_json@, query@),
{
    let mut out = String::from_str("<|im_start|>user\\n<tools>");
    out.append(tools_json);
    out.append("</tools>\\n");
    out.append(query);
    out.append("<|im_end|>\\n<|im_start|>assistant\\n");
    out
}

/// A parsed top-level JSON value, by the kinds tool decoding tells apart.
pub enum JsonTop {
    Array(Vec<serde_json::Value>),
    Object(serde_json::Value),
    Other,
}

/// What `serde_json` makes of a JSON text, by the kinds tool decoding tells
/// apart: the message of the error when the text is not one JSON value, an
/// array with its elements in order, an object, or some other value.
pub enum JsonParse {
    Invalid(Seq<char>),
    Array(Seq<serde_json::Value>),
    Object(serde_json::Value),
    Other,
}

/// What `serde_json::from_str::<Value>` reads from a text: the value, or the
/// `Display` text of its error. It is a function of the text alone.
pub uninterp spec fn json_parse(text: Seq<char>) -> JsonParse;

/// A parse result, by the kinds tool decoding tells apart.
pub open spec fn parse_view(r: Result<JsonTop, String>) -> JsonParse {
    match r {
        Ok(JsonTop::Array(v)) => JsonParse::Array(v@),
        Ok(JsonTop::Object(o)) => JsonParse::Object(o),
        Ok(JsonTop::Other) => JsonParse::Other,
        Err(m) => JsonParse::Invalid(m@),
    }
}

/// Parses JSON text into a `serde_json::Value` (`serde_json::from_str`) and
/// tells arrays and objects apart, moving the array's elements out in order;
/// an error becomes its message (its `Display` text). The outcome is named
/// `json_parse`.
#[verifier::external_body]
fn parse_json(text: &str) -> (r: Result<JsonTop, String>)
    ensures
        parse_view(r) == json_parse(text@),
{
    match serde_json::from_str::<serde_json::Value>(text) {
        Ok(serde_json::Value::Array(calls)) => Ok(JsonTop::Array(calls)),
        Ok(serde_json::Value::Object(map)) => Ok(JsonTop::Object(serde_json::Value::Object(map))),
        Ok(serde_json::Value::Null) => Ok(JsonTop::Other),
        Ok(serde_json::Value::Bool(_)) => Ok(JsonTop::Other),
        Ok(serde_json::Value::Number(_)) => Ok(JsonTop::Other),
        Ok(serde_json::Value::String(_)) => Ok(JsonTop::Other),
        Err(e) => Err(e.to_string()),
    }
}

/// The first position, at `i` or later, where `pat` occurs in `s`.
pub open spec fn find_from(s: Seq<char>, pat: Seq<char>, i: int) -> Option<int>
    decreases s.len() + 1 - i,
{
    if i < 0 || i + pat.len() > s.len() {
        None
    } else if s.subrange(i, i + pat.len()) == pat {
        Some(i)
    } else {
        find_from(s, pat, i + 1)
    }
}

proof fn lemma_find_from_bounds(s: Seq<char>, pat: Seq<char>, i: int)
    ensures
        find_from(s, pat, i) matches Some(k) ==> i <= k && k + pat.len() <= s.len(),
    decreases s.len() + 1 - i,
{
    if !(i < 0 || i + pat.len() > s.len()) && s.subrange(i, i + pat.len()) != pat {
        lemma_find_from_bounds(s, pat, i + 1);
    }
}

proof fn lemma_first_bracket_bounds(s: Seq<char>, i: int)
    ensures
        first_bracket_from(s, i) matches Some(k) ==> i <= k < s.len(),
    decreases s.len() - i,
{
    if !(i < 0 || i >= s.len()) && !(s[i] == '{' || s[i] == '[') {
        lemma_first_bracket_bounds(s, i + 1);
    }
}

/// Unicode `White_Space`, as `char::is_whitespace` defines it.
pub open spec fn is_white_space(c: char) -> bool {
    let u = c as u32;
    ||| 0x09 <= u <= 0x0d
    ||| u == 0x20
    ||| u == 0x85
    ||| u == 0xa0
    ||| u == 0x1680
    ||| 0x2000 <= u <= 0x200a
    ||| u == 0x2028
    ||| u == 0x2029
    ||| u == 0x202f
    ||| u == 0x205f
    ||| u == 0x3000
}

/// Leading white space removed.
pub open spec fn trim_start(s: Seq<char>) -> Seq<char>
    decreases s.len(),
{
    if s.len() > 0 && is_white_space(s[0]) {
        trim_start(s.drop_first())
    } else {
        s
    }
}

/// Trailing white space removed.
pub open spec fn trim_end(s: Seq<char>) -> Seq<char>
    decreases s.len(),
{
    if s.len() > 0 && is_white_space(s.last()) {
        trim_end(s.drop_last())
    } else {
        s
    }
}

/// The part of generated text that holds the tool calls: after the first
/// `<tool_call>` tag (if any), before the next `</tool_call>` (if any),
/// without surrounding white space.
pub open spec fn tool_body(text: Seq<char>) -> Seq<char> {
    let after = match find_from(text, "<tool_call>"@, 0) {
        Some(i) => text.skip(i + "<tool_call>"@.len()),
        None => text,
    };
    let inner = match find_from(after, "</tool_call>"@, 0) {
        Some(i) => after.take(i),
        None => after,
    };
    trim_end(trim_start(inner))
}

/// The first position, at `i` or later, of `{` or `[`.
pub open spec fn first_bracket_from(s: Seq<char>, i: int) -> Option<int>
    decreases s.len() - i,
{
    if i < 0 || i >= s.len() {
        None
    } else if s[i] == '{' || s[i] == '[' {
        Some(i)
    } else {
        first_bracket_from(s, i + 1)
    }
}

/// The JSON text of the tool calls: the body from its first bracket on.
pub open spec fn tool_payload(text: Seq<char>) -> Option<Seq<char>> {
    let body = tool_body(text);
    match first_bracket_from(body, 0) {
        Some(start) => Some(body.skip(start)),
        None => None,
    }
}

/// Whether a character opens a JSON object or array.
pub open spec fn opens_json(c: char) -> bool {
    c == '{' || c == '['
}

proof fn lemma_first_bracket_is_first(s: Seq<char>, i: int)
    requires
        0 <= i,
        forall|j: int| 0 <= j < i && j < s.len() ==> !opens_json(#[trigger] s[j]),
    ensures
        match first_bracket_from(s, i) {
            Some(k) => 0 <= k < s.len() && opens_json(s[k]) && forall|j: int|
                0 <= j < k ==> !opens_json(#[trigger] s[j]),
            None => forall|j: int| 0 <= j < s.len() ==> !opens_json(#[trigger] s[j]),
        },
    decreases s.len() - i,
{
    if i < s.len() && !opens_json(s[i]) {
        lemma_first_bracket_is_first(s, i + 1);
    }
}

/// The JSON payload starts at the first `{` or `[` of the tool-call body:
/// the character there opens an object or array, none before it does, and
/// the payload is the rest of the body; without such a character there is
/// no payload.
pub proof fn lemma_payload_at_first_bracket(text: Seq<char>)
    ensures
        ({
            let body = tool_body(text);
            match tool_payload(text) {
                Some(p) => {
                    let k = body.len() - p.len();
                    &&& 0 <= k < body.len()
                    &&& p == body.skip(k)
                    &&& opens_json(body[k])
                    &&& forall|j: int| 0 <= j < k ==> !opens_json(#[trigger] body[j])
                },
                None => forall|j: int| 0 <= j < body.len() ==> !opens_json(#[trigger] body[j]),
            }
        }),
{
    lemma_first_bracket_is_first(tool_body(text), 0);
}

/// Whether a character is Unicode white space.
pub fn white_space(c: char) -> (r: bool)
    ensures
        r == is_white_space(c),
{
    let u = c as u32;
    (0x09 <= u && u <= 0x0d) || u == 0x20 || u == 0x85 || u == 0xa0 || u == 0x1680 || (0x2000
        <= u && u <= 0x200a) || u == 0x2028 || u == 0x2029 || u == 0x202f || u == 0x205f || u
        == 0x3000
}

/// The first position, at `i` or later, where `pat` occurs in `s`.
fn find_chars(s: &[char], pat: &[char]) -> (r: Option<usize>)
    ensures
        match r {
            Some(i) => find_from(s@, pat@, 0) == Some(i as int) && i + pat@.len() <= s@.len(),
            None => find_from(s@, pat@, 0) is None,
        },
{
    let sl = s.len();
    let mut i: usize = 0;
    while i <= s.len() && pat.len() <= s.len() - i
        invariant
            sl == s@.len(),
            find_from(s@, pat@, 0) == find_from(s@, pat@, i as int),
        decreases s@.len() - i,
    {
        let mut j: usize = 0;
        let mut same = true;
        while j < pat.len()
            invariant
                i + pat@.len() <= s@.len(),
                s@.len() == sl,
                j <= pat@.len(),
                same == (forall|k: int| 0 <= k < j ==> s@[i + k] == pat@[k]),
            decreases pat@.len() - j,
        {
            if s[i + j] != pat[j] {
                same = false;
            }
            j = j + 1;
        }
        if same {
            assert(s@.subrange(i as int, i + pat@.len()) =~= pat@);
            proof {
                lemma_find_from_bounds(s@, pat@, 0);
            }
            return Some(i);
        }
        assert(s@.subrange(i as int, i + pat@.len()) != pat@) by {
            let k = choose|k: int| 0 <= k < j && s@[i + k] != pat@[k];
            assert(s@.subrange(i as int, i + pat@.len())[k] != pat@[k]);
        }
        i = i + 1;
    }
    None
}

/// The part of generated text between the tool-call tags, trimmed.
fn tool_body_of(text: &[char]) -> (r: Vec<char>)
    ensures
        r@ == tool_body(text@),
{
    let text_len = text.len();
    let open_tag = chars_of("<tool_call>");
    let close_tag = chars_of("</tool_call>");
    let mut start: usize = 0;
    match find_chars(text, open_tag.as_slice()) {
        Some(i) => {
            start = i + open_tag.len();
        },
        None => {},
    }
    let after = &text[start..text.len()];
    assert(after@ == match find_from(text@, "<tool_call>"@, 0) {
        Some(i) => text@.skip(i + "<tool_call>"@.len()),
        None => text@,
    });
    let mut end: usize = after.len();
    match find_chars(after, close_tag.as_slice()) {
        Some(i) => {
            end = i;
        },
        None => {},
    }
    let ghost inner = after@.take(end as int);
    assert(inner == match find_from(after@, "</tool_call>"@, 0) {
        Some(i) => after@.take(i),
        None => after@,
    }) by {
        if find_from(after@, "</tool_call>"@, 0) is None {
            assert(after@.take(end as int) =~= after@);
        }
    }
    assert(inner.len() == end);
    assert(inner.subrange(0, end as int) =~= inner);
    let mut lo: usize = 0;
    while lo < end && white_space(after[lo])
        invariant
            lo <= end <= after@.len(),
            inner == after@.take(end as int),
            trim_start(inner) == trim_start(inner.subrange(lo as int, end as int)),
        decreases end - lo,
    {
        let ghost cur = inner.subrange(lo as int, end as int);
        assert(cur[0] == after@[lo as int]);
        assert(cur.drop_first() =~= inner.subrange(lo + 1, end as int));
        lo = lo + 1;
    }
    let ghost mid = inner.subrange(lo as int, end as int);
    assert(trim_start(mid) == mid);
    let mut hi: usize = end;
    while hi > lo && white_space(after[hi - 1])
        invariant
            lo <= hi <= end <= after@.len(),
            inner == after@.take(end as int),
            trim_end(mid) == trim_end(inner.subrange(lo as int, hi as int)),
        decreases hi - lo,
    {
        let ghost cur = inner.subrange(lo as int, hi as int);
        assert(cur.last() == after@[hi - 1]);
        assert(cur.drop_last() =~= inner.subrange(lo as int, hi - 1));
        hi = hi - 1;
    }
    assert(trim_end(inner.subrange(lo as int, hi as int)) == inner.subrange(lo as int, hi as int));
    let mut out: Vec<char> = Vec::new();
    let mut k: usize = lo;
    while k < hi
        invariant
            lo <= k <= hi <= after@.len(),
            out@ == after@.subrange(lo as int, k as int),
        decreases hi - k,
    {
        out.push(after[k]);
        k = k + 1;
        assert(out@ =~= after@.subrange(lo as int, k as int));
    }
    assert(out@ =~= inner.subrange(lo as int, hi as int));
    out
}

/// The first position of `{` or `[`.
fn first_bracket(s: &[char]) -> (r: Option<usize>)
    ensures
        match r {
            Some(i) => first_bracket_from(s@, 0) == Some(i as int) && i < s@.len(),
            None => first_bracket_from(s@, 0) is None,
        },
{
    let mut i: usize = 0;
    while i < s.len()
        invariant
            i <= s@.len(),
            first_bracket_from(s@, 0) == first_bracket_from(s@, i as int),
        decreases s@.len() - i,
    {
        if s[i] == '{' || s[i] == '[' {
            proof {
                lemma_first_bracket_bounds(s@, 0);
            }
            return Some(i);
        }
        i = i + 1;
    }
    None
}

/// The tool calls held by a parsed payload: every element of an array, in
/// order, or a single object. Any other value is refused; a parse error's
/// message is passed on.
pub fn tool_calls_from(parsed: Result<JsonTop, String>) -> (r: Result<
    Vec<serde_json::Value>,
    String,
>)
    ensures
        match parsed {
            Ok(JsonTop::Array(v)) => r matches Ok(c) && c@ == v@,
            Ok(JsonTop::Object(o)) => r matches Ok(c) && c@ == seq![o],
            Ok(JsonTop::Other) => r matches Err(m) && m@
                == "tool call payload must be an object or array"@,
            Err(m) => r matches Err(e) && e@ == m@,
        },
{
    match parsed {
        Ok(JsonTop::Array(calls)) => Ok(calls),
        Ok(JsonTop::Object(value)) => {
            let mut calls: Vec<serde_json::Value> = Vec::new();
            calls.push(value);
            Ok(calls)
        },
        Ok(JsonTop::Other) => Err(String::from_str("tool call payload must be an object or array")),
        Err(m) => Err(m),
    }
}

/// Extracts tool calls from generated text: the JSON after the first bracket
/// of the tagged, trimmed body must be an array (all its elements are calls)
/// or an object (one call).
pub fn decode_tool_calls(text: &str) -> (r: Result<Vec<serde_json::Value>, String>)
    ensures
        match tool_payload(text@) {
            None => r matches Err(m) && m@ == "missing JSON tool payload"@,
            Some(p) => match json_parse(p) {
                JsonParse::Invalid(m) => r matches Err(e) && e@ == m,
                JsonParse::Array(v) => r matches Ok(c) && c@ == v,
                JsonParse::Object(o) => r matches Ok(c) && c@ == seq![o],
                JsonParse::Other => r matches Err(m) && m@
                    == "tool call payload must be an object or array"@,
            },
        },
{
    let chars = chars_of(text);
    let body = tool_body_of(chars.as_slice());
    let start = match first_bracket(body.as_slice()) {
        Some(s) => s,
        None => return Err(String::from_str("missing JSON tool payload")),
    };
    let payload = string_from_chars(&body.as_slice()[start..body.len()]);
    assert(payload@ =~= body@.skip(start as int));
    tool_calls_from(parse_json(payload.as_str()))
}

} // verus!

//! Request bodies for the two streaming endpoints.
//!
//! The delta-choice endpoint takes flat role/content messages and a stream
//! flag; the structured endpoint takes each message wrapped in a typed
//! content part, and optionally the web-search tool.

use vstd::prelude::*;

use crate::json::{spec_get, spec_get_str, JsonValue};
use crate::WebMessage;

verus! {

/// The views of a message list.
pub open spec fn web_msg_views(ms: Seq<WebMessage>) -> Seq<(Seq<char>, Seq<char>)> {
    ms.map_values(|m: WebMessage| (m.role@, m.content@))
}

/// The content-part type a structured input message gets: what the model
/// said is output text, everything else is input text.
pub open spec fn content_kind(role: Seq<char>) -> Seq<char> {
    if role == "assistant"@ {
        "output_text"@
    } else {
        "input_text"@
    }
}

/// Whether `v` is the flat chat form of the message `m`: a `role` and a
/// `content` string.
pub open spec fn is_chat_message(v: JsonValue, m: (Seq<char>, Seq<char>)) -> bool {
    &&& spec_get_str(v, "role"@) == Some(m.0)
    &&& spec_get_str(v, "content"@) == Some(m.1)
}

/// Whether `v` is the structured input form of the message `m`: a `role`,
/// and a `content` array of one part typed by the role and carrying the
/// text.
pub open spec fn is_input_message(v: JsonValue, m: (Seq<char>, Seq<char>)) -> bool {
    &&& spec_get_str(v, "role"@) == Some(m.0)
    &&& match spec_get(v, "content"@) {
        Some(JsonValue::Arr(parts)) => parts@.len() == 1 && spec_get_str(parts@[0], "type"@)
            == Some(content_kind(m.0)) && spec_get_str(parts@[0], "text"@) == Some(m.1),
        _ => false,
    }
}

/// One flat chat message object.
fn chat_message_json(m: &WebMessage) -> (r: JsonValue)
    ensures
        is_chat_message(r, (m.role@, m.content@)),
{
    let mut entries: Vec<(String, JsonValue)> = Vec::new();
    entries.push((String::from_str("role"), JsonValue::Str(m.role.clone())));
    entries.push((String::from_str("content"), JsonValue::Str(m.content.clone())));
    let r = JsonValue::Obj(entries);
    proof {
        reveal_strlit("role");
        reveal_strlit("content");
        reveal_with_fuel(crate::json::spec_obj_get, 3);
        let e = entries@;
        assert(e.drop_first() =~= e.skip(1));
        assert("role"@.len() != "content"@.len());
    }
    r
}

/// One structured input message object.
fn input_message_json(m: &WebMessage) -> (r: JsonValue)
    ensures
        is_input_message(r, (m.role@, m.content@)),
{
    let kind: &str = if crate::json::str_eq(m.role.as_str(), "assistant") {
        "output_text"
    } else {
        "input_text"
    };
    let mut part_entries: Vec<(String, JsonValue)> = Vec::new();
    part_entries.push((String::from_str("type"), JsonValue::Str(String::from_str(kind))));
    part_entries.push((String::from_str("text"), JsonValue::Str(m.content.clone())));
    let part = JsonValue::Obj(part_entries);
    proof {
        reveal_strlit("type");
        reveal_strlit("text");
        reveal_with_fuel(crate::json::spec_obj_get, 3);
        assert("type"@[1] != "text"@[1]);
        assert("type"@ != "text"@);
        let e = part_entries@;
        assert(e.drop_first() =~= e.skip(1));
        assert(spec_get_str(part, "type"@) == Some(content_kind(m.role@)));
        assert(spec_get_str(part, "text"@) == Some(m.content@));
    }
    let mut parts: Vec<JsonValue> = Vec::new();
    parts.push(part);
    let mut entries: Vec<(String, JsonValue)> = Vec::new();
    entries.push((String::from_str("role"), JsonValue::Str(m.role.clone())));
    entries.push((String::from_str("content"), JsonValue::Arr(parts)));
    let r = JsonValue::Obj(entries);
    proof {
        reveal_strlit("role");
        reveal_strlit("content");
        let e = entries@;
        assert(e.drop_first() =~= e.skip(1));
        assert("role"@.len() != "content"@.len());
    }
    r
}

/// The request body for the delta-choice endpoint: the model, the flat
/// messages in order, and the stream flag set.
pub fn build_chat_request(model: &str, messages: &Vec<WebMessage>) -> (r: JsonValue)
    ensures
        spec_get_str(r, "model"@) == Some(model@),
        spec_get(r, "stream"@) == Some(JsonValue::Bool(true)),
        match spec_get(r, "messages"@) {
            Some(JsonValue::Arr(items)) => items@.len() == messages@.len() && (forall|i: int|
                0 <= i < items@.len() ==> is_chat_message(
                    #[trigger] items@[i],
                    web_msg_views(messages@)[i],
                )),
            _ => false,
        },
{
    let mut items: Vec<JsonValue> = Vec::new();
    let n = messages.len();
    let mut i: usize = 0;
    while i < n
        invariant
            i <= n,
            n == messages@.len(),
            items@.len() == i,
            forall|j: int|
                0 <= j < i ==> is_chat_message(#[trigger] items@[j], web_msg_views(messages@)[j]),
        decreases n - i,
    {
        items.push(chat_message_json(&messages[i]));
        i = i + 1;
    }
    let mut entries: Vec<(String, JsonValue)> = Vec::new();
    entries.push((String::from_str("model"), JsonValue::Str(String::from_str(model))));
    entries.push((String::from_str("messages"), JsonValue::Arr(items)));
    entries.push((String::from_str("stream"), JsonValue::Bool(true)));
    let r = JsonValue::Obj(entries);
    proof {
        reveal_strlit("model");
        reveal_strlit("messages");
        reveal_strlit("stream");
        reveal_with_fuel(crate::json::spec_obj_get, 4);
        let e = entries@;
        assert(e.drop_first() =~= e.skip(1));
        assert(e.skip(1).drop_first() =~= e.skip(2));
        assert("model"@.len() != "messages"@.len());
        assert("model"@.len() != "stream"@.len());
        assert("messages"@.len() != "stream"@.len());
    }
    r
}

/// The request body for the structured endpoint: the model, each message as
/// a typed input item in order, and the web-search tool exactly when asked
/// for.
pub fn build_responses_request(model: &str, messages: &Vec<WebMessage>, with_tools: bool) -> (r:
    JsonValue)
    ensures
        spec_get_str(r, "model"@) == Some(model@),
        match spec_get(r, "input"@) {
            Some(JsonValue::Arr(items)) => items@.len() == messages@.len() && (forall|i: int|
                0 <= i < items@.len() ==> is_input_message(
                    #[trigger] items@[i],
                    web_msg_views(messages@)[i],
                )),
            _ => false,
        },
        with_tools ==> match spec_get(r, "tools"@) {
            Some(JsonValue::Arr(tools)) => tools@.len() == 1 && spec_get_str(tools@[0], "type"@)
                == Some("web_search"@),
            _ => false,
        },
        !with_tools ==> spec_get(r, "tools"@) is None,
{
    let mut items: Vec<JsonValue> = Vec::new();
    let n = messages.len();
    let mut i: usize = 0;
    while i < n
        invariant
            i <= n,
            n == messages@.len(),
            items@.len() == i,
            forall|j: int|
                0 <= j < i ==> is_input_message(#[trigger] items@[j], web_msg_views(messages@)[j]),
        decreases n - i,
    {
        items.push(input_message_json(&messages[i]));
        i = i + 1;
    }
    let mut entries: Vec<(String, JsonValue)> = Vec::new();
    entries.push((String::from_str("model"), JsonValue::Str(String::from_str(model))));
    entries.push((String::from_str("input"), JsonValue::Arr(items)));
    if with_tools {
        let mut tool_entries: Vec<(String, JsonValue)> = Vec::new();
        tool_entries.push((String::from_str("type"), JsonValue::Str(String::from_str(
            "web_search",
        ))));
        let tool = JsonValue::Obj(tool_entries);
        proof {
            reveal_strlit("type");
            reveal_strlit("web_search");
            reveal_with_fuel(crate::json::spec_obj_get, 2);
            assert(spec_get_str(tool, "type"@) == Some("web_search"@));
        }
        let mut tools: Vec<JsonValue> = Vec::new();
        tools.push(tool);
        entries.push((String::from_str("tools"), JsonValue::Arr(tools)));
    }
    let r = JsonValue::Obj(entries);
    proof {
        reveal_strlit("model");
        reveal_strlit("input");
        reveal_strlit("tools");
        reveal_with_fuel(crate::json::spec_obj_get, 4);
        let e = entries@;
        assert(e.drop_first() =~= e.skip(1));
        assert(e.skip(1).drop_first() =~= e.skip(2));
        assert("model"@[0] != "input"@[0]);
        assert("model"@ != "input"@);
        assert("input"@[0] != "tools"@[0]);
        assert("input"@ != "tools"@);
        assert("model"@ != "tools"@);
    }
    r
}

} // verus!

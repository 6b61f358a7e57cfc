use ferrite_chatter::config::Config;
use ferrite_chatter::image::{parse_images_response, ImagesError};
use ferrite_chatter::json::JsonValue;
use ferrite_chatter::model::{
    capitalize, model_id_accepted, needs_web_tool, to_camel_case, Model, DEFAULT_MODEL,
};
use ferrite_chatter::render::to_json_string;
use ferrite_chatter::request::{build_chat_request, build_responses_request};
use ferrite_chatter::session::{
    i64_to_string, next_session_id, parse_session_file, session_file_json, sort_sessions_by_id,
    summary_request_messages, SessionManager, SessionMessage,
};
use ferrite_chatter::WebMessage;

fn jstr(s: &str) -> JsonValue {
    JsonValue::Str(s.to_string())
}

fn jobj(pairs: Vec<(&str, JsonValue)>) -> JsonValue {
    JsonValue::Obj(pairs.into_iter().map(|(k, v)| (k.to_string(), v)).collect())
}

fn jarr(items: Vec<JsonValue>) -> JsonValue {
    JsonValue::Arr(items)
}

#[test]
fn json_text_is_compact_and_escaped() {
    let v = jobj(vec![
        ("a", jstr("x\"y\\z\n")),
        ("b", jarr(vec![JsonValue::Null, JsonValue::Bool(true), JsonValue::Num("42".to_string())])),
        ("c", jobj(vec![])),
    ]);
    assert_eq!(to_json_string(&v), "{\"a\":\"x\\\"y\\\\z\\n\",\"b\":[null,true,42],\"c\":{}}");
}

#[test]
fn json_text_escapes_control_characters() {
    let v = jstr("\u{1}\t\r\u{8}\u{c}");
    assert_eq!(to_json_string(&v), "\"\\u0001\\t\\r\\b\\f\"");
}

#[test]
fn capitalize_words() {
    assert_eq!(capitalize("turbo"), "Turbo");
    assert_eq!(capitalize(""), "");
    assert_eq!(capitalize("3abc"), "3abc");
}

#[test]
fn camel_case_model_identifiers() {
    assert_eq!(to_camel_case("gpt-4"), "Gpt_4");
    assert_eq!(to_camel_case("gpt-3.5-turbo"), "Gpt_3_5_Turbo");
    assert_eq!(to_camel_case("gpt-4-32k-0314"), "Gpt_4_32k_0314");
}

#[test]
fn model_names_round_trip() {
    let all = [
        Model::Gpt_4,
        Model::Gpt_4_0314,
        Model::Gpt_4_32k,
        Model::Gpt_4_32k_0314,
        Model::Gpt_3_5_Turbo,
        Model::Gpt_3_5_Turbo_0301,
        Model::Gpt_4o,
    ];
    for m in all {
        assert_eq!(Model::parse(m.as_str()), Some(m));
    }
    assert_eq!(Model::parse("no-such-model"), None);
    assert_eq!(DEFAULT_MODEL.as_str(), "gpt-4o");
}

#[test]
fn model_id_filters() {
    assert!(model_id_accepted("gpt-4o"));
    assert!(model_id_accepted("o1-preview"));
    assert!(!model_id_accepted("gpt-4o-audio-preview"));
    assert!(!model_id_accepted("gpt-4o-realtime-preview"));
    assert!(!model_id_accepted("gpt-5-mini"));
    assert!(model_id_accepted("gpt-5-chat-latest"));
    assert!(!model_id_accepted("gpt-image-1"));
    assert!(!model_id_accepted("whisper-1"));
}

#[test]
fn web_tool_requirement() {
    assert!(needs_web_tool("gpt-4o"));
    assert!(!needs_web_tool("gpt-5-SEARCH-API"));
    assert!(!needs_web_tool("gpt-5-search-api"));
}

#[test]
fn decimal_rendering() {
    assert_eq!(i64_to_string(0), "0");
    assert_eq!(i64_to_string(42), "42");
    assert_eq!(i64_to_string(-7), "-7");
    assert_eq!(i64_to_string(i64::MIN), "-9223372036854775808");
}

#[test]
fn session_paths() {
    let m = SessionManager::new("/tmp/sessions".to_string());
    assert_eq!(m.session_path(12), "/tmp/sessions/12.json");
}

#[test]
fn session_json_round_trips() {
    let messages = vec![
        SessionMessage { role: "system".to_string(), content: "seed".to_string() },
        SessionMessage { role: "user".to_string(), content: "hello".to_string() },
    ];
    let v = session_file_json("work", &Some("a summary".to_string()), &messages);
    let parsed = parse_session_file(&v).expect("own session json should parse");
    assert_eq!(parsed.name, "work");
    assert_eq!(parsed.summary.as_deref(), Some("a summary"));
    assert_eq!(parsed.messages.len(), 2);
    assert_eq!(parsed.messages[1].role, "user");
    assert_eq!(parsed.messages[1].content, "hello");

    let rendered = to_json_string(&v);
    assert_eq!(
        rendered,
        "{\"name\":\"work\",\"summary\":\"a summary\",\"messages\":[{\"role\":\"system\",\"content\":\"seed\"},{\"role\":\"user\",\"content\":\"hello\"}]}"
    );
}

#[test]
fn session_json_rejects_bad_messages() {
    let v = jobj(vec![
        ("name", jstr("x")),
        ("messages", jarr(vec![jobj(vec![("role", jstr("user"))])])),
    ]);
    assert!(parse_session_file(&v).is_none());
}

#[test]
fn next_session_ids() {
    assert_eq!(next_session_id(&vec![]), 1);
    assert_eq!(next_session_id(&vec![3, 1, 2]), 4);
    assert_eq!(next_session_id(&vec![-5, -9]), -4);
}

#[test]
fn session_listing_is_sorted() {
    let sessions = vec![
        (3i64, "c".to_string(), None),
        (1i64, "a".to_string(), Some("s".to_string())),
        (2i64, "b".to_string(), None),
    ];
    let sorted = sort_sessions_by_id(sessions);
    let ids: Vec<i64> = sorted.iter().map(|s| s.0).collect();
    assert_eq!(ids, vec![1, 2, 3]);
    assert_eq!(sorted[0].1, "a");
}

#[test]
fn summary_messages_filter_and_map() {
    let msgs = vec![
        SessionMessage { role: "system".to_string(), content: "seed".to_string() },
        SessionMessage { role: "user".to_string(), content: "q".to_string() },
        SessionMessage { role: "tool".to_string(), content: "ignored".to_string() },
        SessionMessage { role: "assistant".to_string(), content: "a".to_string() },
    ];
    let req = summary_request_messages(&msgs);
    assert_eq!(req.len(), 3);
    assert_eq!(req[0].role, "system");
    assert_eq!(req[1].role, "user");
    assert_eq!(req[1].content, "q");
    assert_eq!(req[2].role, "assistant");
    assert_eq!(req[2].content, "a");
}

#[test]
fn images_response_cases() {
    let ok = jobj(vec![(
        "data",
        jarr(vec![
            jobj(vec![("url", jstr("https://img.example/1.png"))]),
            jobj(vec![("b64_json", jstr("aGk="))]),
        ]),
    )]);
    let items = parse_images_response(&ok).expect("well-formed data should parse");
    assert_eq!(items.len(), 2);
    assert_eq!(items[0].url.as_deref(), Some("https://img.example/1.png"));
    assert_eq!(items[0].b64_json, None);
    assert_eq!(items[1].b64_json.as_deref(), Some("aGk="));

    let api_err = jobj(vec![("error", jobj(vec![("message", jstr("bad prompt"))]))]);
    match parse_images_response(&api_err) {
        Err(ImagesError::Api(m)) => assert_eq!(m, "bad prompt"),
        _ => panic!("an error member must surface as an API error"),
    }

    let missing = jobj(vec![("created", JsonValue::Num("1".to_string()))]);
    assert!(matches!(parse_images_response(&missing), Err(ImagesError::MissingData)));

    let bad = jobj(vec![("data", jarr(vec![jobj(vec![("url", JsonValue::Num("5".to_string()))])]))]);
    assert!(matches!(parse_images_response(&bad), Err(ImagesError::BadData)));
}

#[test]
fn request_bodies() {
    let messages = vec![
        WebMessage { role: "system".to_string(), content: "be brief".to_string() },
        WebMessage { role: "assistant".to_string(), content: "ok".to_string() },
    ];
    let chat = to_json_string(&build_chat_request("gpt-4o", &messages));
    assert_eq!(
        chat,
        "{\"model\":\"gpt-4o\",\"messages\":[{\"role\":\"system\",\"content\":\"be brief\"},{\"role\":\"assistant\",\"content\":\"ok\"}],\"stream\":true}"
    );

    let resp = to_json_string(&build_responses_request("gpt-4o", &messages, true));
    assert_eq!(
        resp,
        "{\"model\":\"gpt-4o\",\"input\":[{\"role\":\"system\",\"content\":[{\"type\":\"input_text\",\"text\":\"be brief\"}]},{\"role\":\"assistant\",\"content\":[{\"type\":\"output_text\",\"text\":\"ok\"}]}],\"tools\":[{\"type\":\"web_search\"}]}"
    );

    let plain = to_json_string(&build_responses_request("gpt-4o", &messages, false));
    assert!(!plain.contains("tools"));
}

#[test]
fn image_request_body() {
    let body = ferrite_chatter::image::build_generate_request(
        "dall-e-2",
        "a teapot",
        1,
        "1024x1024",
        Some("url"),
    );
    assert_eq!(
        to_json_string(&body),
        "{\"model\":\"dall-e-2\",\"prompt\":\"a teapot\",\"n\":1,\"size\":\"1024x1024\",\"response_format\":\"url\"}"
    );
    let no_fmt = ferrite_chatter::image::build_generate_request("gpt-image-1", "p", 2, "512x512", None);
    assert!(!to_json_string(&no_fmt).contains("response_format"));
}

#[test]
fn config_defaults_and_getters() {
    let c = Config::default();
    assert!(c.get_openai_api_key().is_none());
    assert!(c.get_openai_base_url().is_none());
    assert_eq!(c.get_default_model().as_ref().map(|m| m.as_str()), Some("gpt-4o"));

    let c2 = Config::from_parts(Some("test-key".to_string()), None, Some(Model::Gpt_4));
    assert_eq!(c2.get_openai_api_key().as_deref(), Some("test-key"));
    assert_eq!(c2.get_default_model().as_ref().map(|m| m.as_str()), Some("gpt-4"));
}

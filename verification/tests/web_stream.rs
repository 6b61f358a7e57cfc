use ferrite_chatter::adapter::{handle_delta_value, parse_response_output, TextAccum};
use ferrite_chatter::aggregate::aggregate_stream;
use ferrite_chatter::cite::{collect_citations, Citation};
use ferrite_chatter::json::JsonValue;
use ferrite_chatter::text::extract_text_segments_list;

fn jstr(s: &str) -> JsonValue {
    JsonValue::Str(s.to_string())
}

fn jobj(pairs: Vec<(&str, JsonValue)>) -> JsonValue {
    JsonValue::Obj(pairs.into_iter().map(|(k, v)| (k.to_string(), v)).collect())
}

fn jarr(items: Vec<JsonValue>) -> JsonValue {
    JsonValue::Arr(items)
}

fn run_structured(chunks: Vec<&[u8]>) -> (String, Vec<Citation>, bool, Vec<String>) {
    let owned: Vec<Vec<u8>> = chunks.into_iter().map(|c| c.to_vec()).collect();
    let (res, frags) = aggregate_stream(&owned, true).expect("run should succeed");
    (res.message, res.citations, res.displayed, frags)
}

fn run_chat(chunks: Vec<&[u8]>) -> (String, Vec<Citation>, bool, Vec<String>) {
    let owned: Vec<Vec<u8>> = chunks.into_iter().map(|c| c.to_vec()).collect();
    let (res, frags) = aggregate_stream(&owned, false).expect("run should succeed");
    (res.message, res.citations, res.displayed, frags)
}

#[test]
fn extract_text_segments_handles_text_delta() {
    let value = jobj(vec![
        ("type", jstr("response.output_text.delta")),
        (
            "delta",
            jobj(vec![(
                "content",
                jarr(vec![
                    jobj(vec![("type", jstr("output_text")), ("text_delta", jstr("Short answer: "))]),
                    jobj(vec![("type", jstr("output_text")), ("text_delta", jstr("n01e0 is here.\n"))]),
                ]),
            )]),
        ),
    ]);
    let segments = extract_text_segments_list(&value);
    assert_eq!(segments, vec!["Short answer: ".to_string(), "n01e0 is here.\n".to_string()]);
}

#[test]
fn handle_delta_value_emits_text_delta() {
    let delta = jobj(vec![(
        "content",
        jarr(vec![
            jobj(vec![("type", jstr("output_text")), ("text_delta", jstr("hello "))]),
            jobj(vec![("type", jstr("output_text")), ("text_delta", jstr("world"))]),
        ]),
    )]);
    let mut acc = TextAccum::new();
    let emitted = handle_delta_value(&delta, &mut acc);
    let captured: String = acc.emitted.concat();
    assert!(emitted);
    assert_eq!(acc.buffer, "hello world");
    assert_eq!(captured, "hello world");
}

#[test]
fn parse_response_output_extracts_text_and_citations() {
    let response = jobj(vec![(
        "output",
        jarr(vec![jobj(vec![
            ("type", jstr("message")),
            (
                "content",
                jarr(vec![jobj(vec![
                    ("type", jstr("output_text")),
                    ("text", jstr("Short answer: example text.")),
                    (
                        "annotations",
                        jarr(vec![jobj(vec![
                            ("type", jstr("url_citation")),
                            ("url", jstr("https://example.com")),
                            ("title", jstr("Example Title")),
                        ])]),
                    ),
                ])]),
            ),
        ])]),
    )]);
    let mut citations = Vec::new();
    let text = parse_response_output(&response, &mut citations);
    assert!(
        text.contains("Short answer: example text."),
        "parsed text should contain the response body"
    );

    assert_eq!(citations.len(), 1);
    assert_eq!(citations[0].url, "https://example.com");
    assert_eq!(citations[0].title.as_deref(), Some("Example Title"));
}

#[test]
fn message_event_citations_are_collectible() {
    let event = jobj(vec![
        ("type", jstr("message")),
        (
            "content",
            jarr(vec![jobj(vec![
                ("type", jstr("output_text")),
                ("text", jstr("Example with inline cite.")),
                (
                    "annotations",
                    jarr(vec![jobj(vec![
                        ("type", jstr("url_citation")),
                        ("url", jstr("https://example.org")),
                        ("title", jstr("Example Org")),
                    ])]),
                ),
            ])]),
        ),
    ]);

    let mut citations = Vec::new();
    collect_citations(&event, &mut citations);
    assert_eq!(citations.len(), 1);
    assert_eq!(citations[0].url, "https://example.org");
    assert_eq!(citations[0].title.as_deref(), Some("Example Org"));
}

#[test]
fn scenario_structured_deltas() {
    let (message, citations, displayed, frags) = run_structured(vec![
        b"data: {\"type\":\"response.output_text.delta\",\"delta\":\"Hello \"}\n\n",
        b"data: {\"type\":\"response.output_text.delta\",\"delta\":\"world\"}\n\n",
        b"data: [DONE]\n\n",
    ]);
    assert_eq!(message, "Hello world");
    assert!(citations.is_empty());
    assert!(displayed);
    assert_eq!(frags, vec!["Hello ".to_string(), "world".to_string()]);
}

#[test]
fn scenario_completed_citation_harvest() {
    let payload = "data: {\"type\":\"response.completed\",\"response\":{\"output\":[{\"type\":\"message\",\"content\":[{\"type\":\"output_text\",\"text\":\"Short answer: example text.\",\"annotations\":[{\"url\":\"https://example.com\",\"title\":\"Example\"}]}]}]}}\n\n";
    let (message, citations, displayed, _frags) =
        run_structured(vec![payload.as_bytes(), b"data: [DONE]\n\n"]);
    assert!(message.contains("Short answer: example text."));
    assert_eq!(citations.len(), 1);
    assert_eq!(citations[0].url, "https://example.com");
    assert_eq!(citations[0].title.as_deref(), Some("Example"));
    assert!(!displayed);
}

#[test]
fn scenario_chat_final_message_fallback() {
    let (message, _citations, displayed, frags) = run_chat(vec![
        b"data: {\"choices\":[{\"finish_reason\":\"stop\",\"message\":{\"content\":\"Done.\"}}]}\n\n",
        b"data: [DONE]\n\n",
    ]);
    assert_eq!(message, "Done.");
    assert!(!displayed);
    assert!(frags.is_empty());
}

#[test]
fn sentinel_discards_trailing_bytes() {
    let (message, citations, displayed, frags) = run_structured(vec![
        b"data: {\"type\":\"response.output_text.delta\",\"delta\":\"kept\"}\n\n",
        b"data: [DONE]\n\ndata: {\"type\":\"response.output_text.delta\",\"delta\":\"dropped\"}\n\n",
        b"data: {\"type\":\"response.output_text.delta\",\"delta\":\"also dropped\"}\n\n",
    ]);
    assert_eq!(message, "kept");
    assert!(citations.is_empty());
    assert!(displayed);
    assert_eq!(frags, vec!["kept".to_string()]);
}

#[test]
fn chunk_boundaries_do_not_matter() {
    let stream: &[u8] = "data: {\"type\":\"response.output_text.delta\",\"delta\":\"He\"}\r\n\r\ndata: {\"type\":\"response.output_text.delta\",\"delta\":\"llo\"}\n\ndata: [DONE]\n\n"
    .as_bytes();
    let whole = run_structured(vec![stream]);
    let byte_chunks: Vec<Vec<u8>> = stream.iter().map(|b| vec![*b]).collect();
    let (res, frags) = aggregate_stream(&byte_chunks, true).expect("run should succeed");
    assert_eq!(whole.0, "Hello");
    assert_eq!(res.message, whole.0);
    assert_eq!(res.displayed, whole.2);
    assert_eq!(frags, whole.3);
    assert_eq!(res.citations.len(), whole.1.len());
}

#[test]
fn citation_dedup_first_title_wins() {
    let payload = "data: {\"type\":\"response.output_text.annotation\",\"annotation\":{\"url\":\"https://a.example\",\"title\":\"First\"}}\n\ndata: {\"type\":\"response.output_text.annotation\",\"annotation\":{\"url\":\"https://a.example\",\"title\":\"Second\"}}\n\ndata: [DONE]\n\n";
    let (_message, citations, _displayed, _frags) = run_structured(vec![payload.as_bytes()]);
    assert_eq!(citations.len(), 1);
    assert_eq!(citations[0].url, "https://a.example");
    assert_eq!(citations[0].title.as_deref(), Some("First"));
}

#[test]
fn empty_fragment_does_not_display() {
    let (message, _citations, displayed, frags) = run_structured(vec![
        b"data: {\"type\":\"response.output_text.delta\",\"delta\":\"\"}\n\n",
        b"data: [DONE]\n\n",
    ]);
    assert_eq!(message, "");
    assert!(!displayed);
    assert!(frags.is_empty());
}

#[test]
fn malformed_block_is_skipped() {
    let (message, _citations, displayed, _frags) = run_structured(vec![
        b"data: {not json at all\n\n",
        b"data: {\"type\":\"response.output_text.delta\",\"delta\":\"ok\"}\n\n",
        b"data: [DONE]\n\n",
    ]);
    assert_eq!(message, "ok");
    assert!(displayed);
}

#[test]
fn invalid_utf8_is_replaced_not_fatal() {
    let mut block: Vec<u8> = Vec::new();
    block.extend_from_slice(b"data: {\"type\":\"response.output_text.delta\",\"delta\":\"a");
    block.push(0xFF);
    block.extend_from_slice(b"b\"}\n\n");
    let chunks = vec![block, b"data: [DONE]\n\n".to_vec()];
    let (res, _frags) = aggregate_stream(&chunks, true).expect("run should succeed");
    assert_eq!(res.message, "a\u{FFFD}b");
    assert!(res.displayed);
}

#[test]
fn error_event_aborts_with_message() {
    let chunks: Vec<Vec<u8>> = vec![
        b"data: {\"type\":\"response.error\",\"error\":{\"message\":\"quota exhausted\"}}\n\n".to_vec(),
    ];
    let err = aggregate_stream(&chunks, true).expect_err("run should fail");
    assert_eq!(err, "quota exhausted");
}

#[test]
fn chat_streaming_content_pieces() {
    let (message, _citations, displayed, frags) = run_chat(vec![
        b"data: {\"choices\":[{\"delta\":{\"content\":\"One \"}}]}\n\n",
        b"data: {\"choices\":[{\"delta\":{\"content\":\"two\"}}]}\n\n",
        b"data: [DONE]\n\n",
    ]);
    assert_eq!(message, "One two");
    assert!(displayed);
    assert_eq!(frags, vec!["One ".to_string(), "two".to_string()]);
}

#[test]
fn unterminated_final_block_is_flushed() {
    let (message, _citations, displayed, _frags) = run_structured(vec![
        b"data: {\"type\":\"response.output_text.delta\",\"delta\":\"tail\"}",
    ]);
    assert_eq!(message, "tail");
    assert!(displayed);
}

#[test]
fn message_event_sets_final_text() {
    let payload = "data: {\"type\":\"message\",\"content\":[{\"type\":\"output_text\",\"text\":\"From message event.\"}]}\n\ndata: [DONE]\n\n";
    let (message, _citations, displayed, frags) = run_structured(vec![payload.as_bytes()]);
    assert_eq!(message, "From message event.");
    assert!(!displayed);
    assert!(frags.is_empty());
}

#[test]
fn chat_delta_array_content() {
    let (message, _citations, displayed, frags) = run_chat(vec![
        b"data: {\"choices\":[{\"delta\":{\"content\":[{\"type\":\"output_text\",\"text_delta\":\"A\"},{\"type\":\"output_text\",\"text_delta\":\"B\"}]}}]}\n\n",
        b"data: [DONE]\n\n",
    ]);
    assert_eq!(message, "AB");
    assert!(displayed);
    assert_eq!(frags, vec!["A".to_string(), "B".to_string()]);
}

#[test]
fn chat_delta_citation_members() {
    let (message, citations, _displayed, _frags) = run_chat(vec![
        b"data: {\"choices\":[{\"delta\":{\"content\":\"cited\",\"citations\":[{\"url\":\"https://c.example\",\"title\":\"C\"}]}}]}\n\n",
        b"data: [DONE]\n\n",
    ]);
    assert_eq!(message, "cited");
    assert_eq!(citations.len(), 1);
    assert_eq!(citations[0].url, "https://c.example");
}

#[test]
fn block_without_data_lines_is_tried_whole() {
    let (message, _citations, displayed, _frags) = run_structured(vec![
        b"{\"type\":\"response.output_text.delta\",\"delta\":\"direct\"}\n\n",
        b"data: [DONE]\n\n",
    ]);
    assert_eq!(message, "direct");
    assert!(displayed);
}

#[test]
fn whitespace_only_carry_is_not_flushed() {
    let (message, _citations, displayed, frags) = run_structured(vec![
        b"data: {\"type\":\"response.output_text.delta\",\"delta\":\"x\"}\n\n  \n ",
    ]);
    assert_eq!(message, "x");
    assert!(displayed);
    assert_eq!(frags, vec!["x".to_string()]);
}

#[test]
fn full_text_block_is_forwarded() {
    let (message, _citations, displayed, frags) = run_structured(vec![
        b"data: {\"type\":\"response.output_text\",\"output\":[{\"type\":\"output_text\",\"text\":\"whole block\"}]}\n\n",
        b"data: [DONE]\n\n",
    ]);
    assert_eq!(message, "whole block");
    assert!(displayed);
    assert_eq!(frags, vec!["whole block".to_string()]);
}

#[test]
fn untyped_output_document_sets_final_text() {
    let (message, citations, displayed, _frags) = run_structured(vec![
        b"data: {\"output\":[{\"type\":\"message\",\"content\":[{\"type\":\"output_text\",\"text\":\"untagged\",\"annotations\":[{\"url\":\"https://u.example\"}]}]}]}\n\n",
        b"data: [DONE]\n\n",
    ]);
    assert_eq!(message, "untagged");
    assert_eq!(citations.len(), 1);
    assert_eq!(citations[0].url, "https://u.example");
    assert_eq!(citations[0].title, None);
    assert!(!displayed);
}

#[test]
fn data_lines_of_one_block_are_joined() {
    let (message, _citations, displayed, _frags) = run_structured(vec![
        b"data: {\"type\":\"response.output_text.delta\",\ndata: \"delta\":\"joined\"}\n\n",
        b"data: [DONE]\n\n",
    ]);
    assert_eq!(message, "joined");
    assert!(displayed);
}

#[test]
fn whitespace_fragments_are_kept() {
    let (message, _citations, displayed, frags) = run_structured(vec![
        b"data: {\"type\":\"response.output_text.delta\",\"delta\":\" \"}\n\n",
        b"data: {\"type\":\"response.output_text.delta\",\"delta\":\"\\t\"}\n\n",
        b"data: [DONE]\n\n",
    ]);
    assert_eq!(message, " \t");
    assert!(displayed);
    assert_eq!(frags, vec![" ".to_string(), "\t".to_string()]);
}

#[test]
fn unicode_whitespace_trimmed_around_payload() {
    let done_padded = "data: \u{a0}[DONE]\u{a0}\n\n".as_bytes();
    let (message, _citations, _displayed, _frags) = run_structured(vec![
        b"data: {\"type\":\"response.output_text.delta\",\"delta\":\"kept\"}\n\n",
        done_padded,
        b"data: {\"type\":\"response.output_text.delta\",\"delta\":\"dropped\"}\n\n",
    ]);
    assert_eq!(message, "kept");
}

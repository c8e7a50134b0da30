use psup::chat::{build_contents, extract_reply, sse_data_payloads, ChatMessage, ChatReply, ReplyCandidate};

fn msg(role: &str, content: &str) -> ChatMessage {
    ChatMessage { role: role.to_string(), content: content.to_string() }
}

#[test]
fn build_contents_without_prompt_maps_messages() {
    let contents = build_contents(vec![msg("user", "hi"), msg("assistant", "hello")], "");
    assert_eq!(contents.len(), 2);
    assert_eq!(contents[0].role, "user");
    assert_eq!(contents[0].parts.len(), 1);
    assert_eq!(contents[0].parts[0].text, "hi");
    assert_eq!(contents[1].role, "model");
    assert_eq!(contents[1].parts[0].text, "hello");
}

#[test]
fn build_contents_with_prompt_adds_preamble() {
    let contents = build_contents(vec![msg("user", "question")], "Be brief.");
    assert_eq!(contents.len(), 3);
    assert_eq!(contents[0].role, "user");
    assert_eq!(
        contents[0].parts[0].text,
        "[System Instructions]\nBe brief.\n\n[End System Instructions]"
    );
    assert_eq!(contents[1].role, "model");
    assert_eq!(contents[1].parts[0].text, "I understand. I'll follow these instructions.");
    assert_eq!(contents[2].role, "user");
    assert_eq!(contents[2].parts[0].text, "question");
}

#[test]
fn extract_reply_prefers_reported_error() {
    let reply = ChatReply {
        candidates: vec![ReplyCandidate { texts: vec!["ignored".to_string()] }],
        error: Some("quota exceeded".to_string()),
    };
    assert_eq!(extract_reply(reply).unwrap_err(), "Gemini API error: quota exceeded");
}

#[test]
fn extract_reply_takes_first_text_of_first_candidate() {
    let reply = ChatReply {
        candidates: vec![
            ReplyCandidate { texts: vec!["first".to_string(), "second".to_string()] },
            ReplyCandidate { texts: vec!["other".to_string()] },
        ],
        error: None,
    };
    assert_eq!(extract_reply(reply).unwrap(), "first");
}

#[test]
fn extract_reply_without_candidates_is_an_error() {
    let reply = ChatReply { candidates: vec![], error: None };
    assert_eq!(extract_reply(reply).unwrap_err(), "No response from Gemini");
    let reply = ChatReply { candidates: vec![ReplyCandidate { texts: vec![] }], error: None };
    assert_eq!(extract_reply(reply).unwrap_err(), "No response from Gemini");
}

#[test]
fn sse_payloads_are_extracted_in_order() {
    let chunk = "data: {\"a\":1}\ndata: {\"b\":2}\n\n";
    assert_eq!(sse_data_payloads(chunk), vec!["{\"a\":1}", "{\"b\":2}"]);
}

#[test]
fn sse_payloads_ignore_lines_without_prefix() {
    let chunk = "event: ping\ndata: x\nid: 3\ndata:y\n: comment";
    assert_eq!(sse_data_payloads(chunk), vec!["x"]);
}

#[test]
fn sse_payloads_strip_carriage_returns() {
    let chunk = "data: one\r\ndata: two\r\n";
    assert_eq!(sse_data_payloads(chunk), vec!["one", "two"]);
}

#[test]
fn sse_empty_chunk_has_no_payloads() {
    assert_eq!(sse_data_payloads("").len(), 0);
}

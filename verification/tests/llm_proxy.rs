use attention_matters::json::Json;
use attention_matters::llm_proxy::{
    bearer_token, build_chat_messages, build_memory_context_message, delta_content,
    extract_salient_tags, format_recall_section, post_response_calls, sse_data, sse_error,
    sse_event, sse_keepalive, system_prompt_for, ChatMessage, ChatStream, RecallLine,
    StreamEvent, ASSISTANT_SYSTEM_PROMPT, EXPLORER_SYSTEM_PROMPT,
};

fn obj(members: Vec<(&str, Json)>) -> Json {
    Json::object(members.into_iter().map(|(k, v)| (k.to_string(), v)).collect())
}

fn chunk(content: &str) -> Json {
    obj(vec![(
        "choices",
        Json::Array(vec![obj(vec![("delta", obj(vec![("content", Json::string(content))]))])]),
    )])
}

#[test]
fn test_extract_salient_tags_single() {
    let text = "Some text <salient>important insight</salient> more text";
    let tags = extract_salient_tags(text);
    assert_eq!(tags, vec!["important insight"]);
}

#[test]
fn test_extract_salient_tags_multiple() {
    let text = "<salient>first</salient> middle <salient>second</salient>";
    let tags = extract_salient_tags(text);
    assert_eq!(tags, vec!["first", "second"]);
}

#[test]
fn test_extract_salient_tags_none() {
    let text = "no tags here";
    let tags = extract_salient_tags(text);
    assert!(tags.is_empty());
}

#[test]
fn test_extract_salient_tags_unclosed() {
    let text = "<salient>unclosed tag without end";
    let tags = extract_salient_tags(text);
    assert!(tags.is_empty());
}

#[test]
fn test_extract_salient_tags_empty() {
    let text = "<salient></salient>";
    let tags = extract_salient_tags(text);
    assert!(tags.is_empty());
}

#[test]
fn test_memory_context_message_contains_structured_recall() {
    let conscious = vec![RecallLine {
        id: "abc".to_string(),
        seed: "Helioy Crew".to_string(),
        score: "0.910".to_string(),
        kind: "Decision".to_string(),
        epoch: 7,
        text: "Three-layer orchestration stack".to_string(),
    }];
    let message = build_memory_context_message(
        "assistant",
        "Composed test context",
        &conscious,
        &Vec::new(),
        &Vec::new(),
    );
    assert!(message.contains("AM_MEMORY_CONTEXT"));
    assert!(message.contains("## Conscious"));
    assert!(message.contains("Helioy Crew"));
    assert!(message.contains("Composed test context"));
}

#[test]
fn salient_tags_are_trimmed() {
    assert_eq!(extract_salient_tags("<salient>  spaced  </salient>"), vec!["spaced"]);
}

#[test]
fn memory_context_message_exact_text() {
    let m = build_memory_context_message("explorer", "  ", &Vec::new(), &Vec::new(), &Vec::new());
    assert_eq!(
        m,
        "AM_MEMORY_CONTEXT\n\nUse this as supporting evidence for the next user question.\n\
Focus on explaining what the memory system appears to know, where the memories came from, and how the pieces connect.\n\n\
## Conscious\n- None recalled.\n\n## Subconscious\n- None recalled.\n\n## Novel\n- None recalled.\n\n\
## Composed Recall\nNo composed recall available.\n"
    );
}

#[test]
fn recall_section_lists_each_item() {
    let items = vec![RecallLine {
        id: "n1".to_string(),
        seed: "Seed".to_string(),
        score: "0.500".to_string(),
        kind: "Insight".to_string(),
        epoch: 12,
        text: "  body text \n".to_string(),
    }];
    assert_eq!(
        format_recall_section(&items),
        "- **Seed**  \n  score: 0.500 | type: Insight | epoch: 12 | id: n1  \n  body text\n"
    );
}

#[test]
fn sse_frames() {
    assert_eq!(sse_event("context", "{}"), "event: context\ndata: {}\n\n");
    assert_eq!(sse_data("a\nb"), "data: a\ndata: b\n\n");
    assert_eq!(sse_data(""), "data: \n\n");
    assert_eq!(sse_keepalive(), ": keepalive\n\n");
    assert_eq!(
        sse_error("E1", "bad \"thing\""),
        "event: error\ndata: {\"code\":\"E1\",\"message\":\"bad \\\"thing\\\"\"}\n\n"
    );
}

#[test]
fn sse_error_escapes_as_json_does() {
    assert_eq!(
        sse_error("C", "a\\b\n\t\u{1}\u{1f}\u{7f}é"),
        "event: error\ndata: {\"code\":\"C\",\"message\":\"a\\\\b\\n\\t\\u0001\\u001f\u{7f}é\"}\n\n"
    );
}

#[test]
fn bearer_tokens() {
    assert_eq!(bearer_token(Some("Bearer sk-123")), Some("sk-123".to_string()));
    assert_eq!(bearer_token(Some("Bearer ")), None);
    assert_eq!(bearer_token(Some("Basic abc")), None);
    assert_eq!(bearer_token(None), None);
}

#[test]
fn system_prompts_by_mode() {
    assert_eq!(system_prompt_for("assistant"), ASSISTANT_SYSTEM_PROMPT);
    assert_eq!(system_prompt_for("explorer"), EXPLORER_SYSTEM_PROMPT);
    assert_eq!(system_prompt_for("other"), EXPLORER_SYSTEM_PROMPT);
}

#[test]
fn chat_messages_replace_the_first_system_message() {
    let conv = vec![
        ChatMessage { role: "system".to_string(), content: "old".to_string() },
        ChatMessage { role: "user".to_string(), content: "hi".to_string() },
        ChatMessage { role: "system".to_string(), content: "second".to_string() },
    ];
    let out = build_chat_messages(&conv, "SYS", "MEM", "question");
    let pairs: Vec<(&str, &str)> = out.iter().map(|m| (m.role.as_str(), m.content.as_str())).collect();
    assert_eq!(
        pairs,
        vec![
            ("system", "SYS"),
            ("user", "hi"),
            ("system", "second"),
            ("user", "MEM"),
            ("user", "question")
        ]
    );
}

#[test]
fn chat_messages_prepend_a_system_message_when_there_is_none() {
    let out = build_chat_messages(&Vec::new(), "SYS", "MEM", "q");
    let pairs: Vec<(&str, &str)> = out.iter().map(|m| (m.role.as_str(), m.content.as_str())).collect();
    assert_eq!(pairs, vec![("system", "SYS"), ("user", "MEM"), ("user", "q")]);
}

#[test]
fn delta_content_reads_the_first_choice() {
    assert_eq!(delta_content(&chunk("hel")), Some("hel".to_string()));
    assert_eq!(delta_content(&obj(vec![("choices", Json::Array(vec![]))])), None);
    assert_eq!(delta_content(&Json::Null), None);
}

#[test]
fn chat_stream_relays_chunks_and_finishes_on_done() {
    let mut s = ChatStream::new();
    let a = s.step(StreamEvent::KeepaliveTick);
    assert_eq!(a.send.as_deref(), Some(": keepalive\n\n"));
    let a = s.step(StreamEvent::Event { data: "x".to_string(), parsed: Some(chunk("Hello ")) });
    assert_eq!(a.send.as_deref(), Some("data: Hello \n\n"));
    assert!(!a.finished);
    let a = s.step(StreamEvent::KeepaliveTick);
    assert!(a.send.is_none());
    let _ = s.step(StreamEvent::Event { data: "y".to_string(), parsed: Some(chunk("world")) });
    let a = s.step(StreamEvent::Event { data: "[DONE]".to_string(), parsed: None });
    assert_eq!(a.send.as_deref(), Some("data: [DONE]\n\n"));
    assert!(a.finished && a.post_response);
    assert_eq!(s.full_response, "Hello world");
    assert_eq!(s.chunk_count, 2);
}

#[test]
fn chat_stream_reports_failures_and_cancellation() {
    let mut s = ChatStream::new();
    let a = s.step(StreamEvent::Failed { message: "timeout".to_string() });
    assert!(a.finished && !a.post_response);
    assert_eq!(
        a.send.as_deref(),
        Some("event: error\ndata: {\"code\":\"LLM_STREAM_ERROR\",\"message\":\"Stream error: timeout\"}\n\n")
    );
    let a = s.step(StreamEvent::Cancelled);
    assert!(a.finished && a.send.is_none());
}

#[test]
fn post_response_calls_buffer_activate_and_mark_salient() {
    let calls = post_response_calls("q", "answer <salient>keep this</salient>");
    let names: Vec<&str> = calls.iter().map(|c| c.0.as_str()).collect();
    assert_eq!(names, vec!["am_buffer", "am_activate_response", "am_salient"]);
    let text = calls[2].1.get("text").and_then(|t| t.as_str());
    assert_eq!(text, Some("keep this"));
    let arg = |k: usize, key: &str| calls[k].1.get(key).and_then(|t| t.as_str()).map(|s| s.to_string());
    assert_eq!(arg(0, "user").as_deref(), Some("q"));
    assert_eq!(arg(0, "assistant").as_deref(), Some("answer <salient>keep this</salient>"));
    assert_eq!(arg(1, "text").as_deref(), Some("answer <salient>keep this</salient>"));
    assert!(matches!(calls[2].1.get("supersedes"), Some(Json::Array(a)) if a.is_empty()));
    assert!(post_response_calls("q", "").is_empty());
}

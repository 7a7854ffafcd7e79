use attention_matters::json::Json;
use attention_matters::sync::{
    encode_path, sort_sessions, SessionInfo, extract_episodes, extract_session_text, is_system_prompt, strip_markdown,
    ExtractedEpisode,
};

// --- Helpers that build transcript lines as the reader would see them ---

fn to_json(v: &serde_json::Value) -> Json {
    match v {
        serde_json::Value::Null => Json::Null,
        serde_json::Value::Bool(b) => Json::Bool(*b),
        serde_json::Value::Number(n) => Json::Number(n.to_string()),
        serde_json::Value::String(s) => Json::Str(s.clone()),
        serde_json::Value::Array(a) => Json::Array(a.iter().map(to_json).collect()),
        serde_json::Value::Object(m) => {
            Json::Object(m.iter().map(|(k, v)| (k.clone(), to_json(v))).collect())
        }
    }
}

fn main_user(content: &str) -> String {
    format!(
        r#"{{"type":"user","isSidechain":false,"message":{{"role":"user","content":"{content}"}}}}"#
    )
}

fn main_assistant_text(text: &str) -> String {
    format!(
        r#"{{"type":"assistant","isSidechain":false,"message":{{"role":"assistant","content":[{{"type":"text","text":"{text}"}}]}}}}"#
    )
}

fn main_assistant_thinking(thinking: &str) -> String {
    format!(
        r#"{{"type":"assistant","isSidechain":false,"message":{{"role":"assistant","content":[{{"type":"thinking","thinking":"{thinking}"}}]}}}}"#
    )
}

fn main_assistant_tool_use() -> String {
    r#"{"type":"assistant","isSidechain":false,"message":{"role":"assistant","content":[{"type":"tool_use","name":"Read","input":{}}]}}"#.to_string()
}

fn sidechain_user(slug: &str, content: &str) -> String {
    format!(
        r#"{{"type":"user","isSidechain":true,"slug":"{slug}","message":{{"role":"user","content":"{content}"}}}}"#
    )
}

fn sidechain_assistant_text(slug: &str, text: &str) -> String {
    format!(
        r#"{{"type":"assistant","isSidechain":true,"slug":"{slug}","message":{{"role":"assistant","content":[{{"type":"text","text":"{text}"}}]}}}}"#
    )
}

fn sidechain_tool_result(slug: &str) -> String {
    format!(
        r#"{{"type":"user","isSidechain":true,"slug":"{slug}","message":{{"role":"user","content":[{{"type":"tool_result","tool_use_id":"toolu_123","content":"output data"}}]}}}}"#
    )
}

/// Build a properly escaped assistant text line.
fn main_assistant_text_raw(text: &str) -> String {
    let mut block = serde_json::Map::new();
    block.insert("type".to_string(), serde_json::Value::String("text".to_string()));
    block.insert("text".to_string(), serde_json::Value::String(text.to_string()));
    let mut message = serde_json::Map::new();
    message.insert("role".to_string(), serde_json::Value::String("assistant".to_string()));
    message.insert(
        "content".to_string(),
        serde_json::Value::Array(vec![serde_json::Value::Object(block)]),
    );
    let mut entry = serde_json::Map::new();
    entry.insert("type".to_string(), serde_json::Value::String("assistant".to_string()));
    entry.insert("isSidechain".to_string(), serde_json::Value::Bool(false));
    entry.insert("message".to_string(), serde_json::Value::Object(message));
    serde_json::Value::Object(entry).to_string()
}

/// The entries of a transcript: each non-empty line that parses as JSON.
fn write_transcript(lines: &[String]) -> Vec<Json> {
    lines
        .iter()
        .filter(|l| !l.is_empty())
        .filter_map(|l| serde_json::from_str::<serde_json::Value>(l).ok())
        .map(|v| to_json(&v))
        .collect()
}

fn episodes_of(lines: &[String], prefix: &str) -> Vec<ExtractedEpisode> {
    extract_episodes(&write_transcript(lines), prefix)
}

// --- extract_episodes ---

#[test]
fn test_short_session_single_episode() {
    let episodes = episodes_of(
        &[
            main_user("How does authentication work in this codebase?"),
            main_assistant_text("The auth middleware uses JWT tokens stored in HTTP-only cookies."),
            main_user("What about the refresh token flow?"),
            main_assistant_text(
                "Refresh tokens are rotated on each use with a 7-day sliding window.",
            ),
        ],
        "abc12345",
    );
    assert_eq!(episodes.len(), 1);
    assert_eq!(episodes[0].name, "session-abc12345");
    assert!(episodes[0].text.contains("authentication"));
    assert!(episodes[0].text.contains("JWT tokens"));
    assert!(episodes[0].text.contains("refresh token"));
}

#[test]
fn test_role_headers_in_episodes() {
    let episodes = episodes_of(
        &[
            main_user("How does authentication work in this codebase?"),
            main_assistant_text("The auth middleware uses JWT tokens stored in HTTP-only cookies."),
        ],
        "role1234",
    );
    assert_eq!(episodes.len(), 1);
    assert!(episodes[0].text.contains("[user]\nHow does authentication"));
    assert!(episodes[0].text.contains("[assistant]\nThe auth middleware"));
}

#[test]
fn test_role_headers_in_session_text() {
    let entries = write_transcript(&[
        main_user("Explain quaternion SLERP interpolation in detail."),
        main_assistant_text("SLERP produces constant-speed rotation between two quaternions."),
    ]);
    let text = extract_session_text(&entries);
    assert!(text.contains("[user]\nExplain quaternion"));
    assert!(text.contains("[assistant]\nSLERP produces"));
}

#[test]
fn test_markdown_table_stripped() {
    let table_md = "Here are the results:\n\n| Module | LOC | Exports |\n|--------|-----|--------|\n| core | 500 | 12 |\n| store | 300 | 8 |\n\nThat covers the workspace.";
    let episodes = episodes_of(
        &[main_user("Show me the module stats in a table."), main_assistant_text_raw(table_md)],
        "table123",
    );
    assert_eq!(episodes.len(), 1);
    let text = &episodes[0].text;
    assert!(!text.contains('|'), "pipes still present: {text}");
    assert!(!text.contains("---"), "separator still present: {text}");
    assert!(text.contains("core"));
    assert!(text.contains("500"));
    assert!(text.contains("store"));
}

#[test]
fn test_markdown_formatting_stripped() {
    let md = "## Architecture\n\nThe **query engine** uses `SLERP` for *drift*.\n\n- Step one\n- Step two\n\nSee [the docs](https://example.com) for details.";
    let episodes = episodes_of(
        &[main_user("Explain the architecture with formatting."), main_assistant_text_raw(md)],
        "fmt12345",
    );
    let text = &episodes[0].text;
    assert!(!text.contains("##"), "heading markers present: {text}");
    assert!(!text.contains("**"), "bold markers present: {text}");
    assert!(!text.contains('`'), "backticks present: {text}");
    assert!(!text.contains("]("), "link syntax present: {text}");
    assert!(text.contains("Architecture"));
    assert!(text.contains("query engine"));
    assert!(text.contains("SLERP"));
    assert!(text.contains("drift"));
    assert!(text.contains("Step one"));
    assert!(text.contains("the docs"));
}

#[test]
fn test_long_session_chunked_into_episodes() {
    let mut lines = Vec::new();
    // 12 user turns: 3 episodes (5 + 5 + 2)
    for i in 0..12 {
        lines.push(main_user(&format!(
            "Question number {i} about the architecture of this system"
        )));
        lines.push(main_assistant_text(&format!(
            "Detailed answer number {i} covering the architecture topic"
        )));
    }
    let episodes = episodes_of(&lines, "longsess");
    assert_eq!(episodes.len(), 3);
    assert_eq!(episodes[0].name, "session-longsess-1");
    assert_eq!(episodes[1].name, "session-longsess-2");
    assert_eq!(episodes[2].name, "session-longsess-3");
}

#[test]
fn test_thinking_blocks_captured() {
    let episodes = episodes_of(
        &[
            main_user("Explain the geometric memory model in detail."),
            main_assistant_thinking(
                "The user wants to understand the quaternion manifold and how words drift via SLERP.",
            ),
            main_assistant_text(
                "Memory is modeled as points on a 3-sphere using quaternion positions.",
            ),
        ],
        "think123",
    );
    assert_eq!(episodes.len(), 1);
    assert!(episodes[0].text.contains("quaternion manifold"));
    assert!(episodes[0].text.contains("3-sphere"));
}

#[test]
fn test_tool_use_blocks_excluded() {
    let episodes = episodes_of(
        &[
            main_user("Read the configuration file and explain it."),
            main_assistant_tool_use(),
            main_assistant_text(
                "The config uses TOML format with three sections for database, cache, and logging.",
            ),
        ],
        "tools123",
    );
    assert_eq!(episodes.len(), 1);
    assert!(!episodes[0].text.contains("tool_use"));
    assert!(episodes[0].text.contains("TOML format"));
}

#[test]
fn test_sidechain_becomes_own_episode() {
    let episodes = episodes_of(
        &[
            main_user("Run the test suite and check for lint warnings."),
            main_assistant_text("Spawning a subagent to run the tests in parallel."),
            sidechain_user(
                "quiet-skipping-bonbon",
                "Run the full test suite for this Rust project and report results.",
            ),
            sidechain_assistant_text(
                "quiet-skipping-bonbon",
                "All 147 tests passed. No lint warnings from clippy.",
            ),
            sidechain_tool_result("quiet-skipping-bonbon"),
        ],
        "side1234",
    );
    assert_eq!(episodes.len(), 2);
    assert_eq!(episodes[0].name, "session-side1234");
    assert!(episodes[0].text.contains("test suite"));
    assert_eq!(episodes[1].name, "session-side1234-quiet-skipping-bonbon");
    assert!(episodes[1].text.contains("147 tests passed"));
}

#[test]
fn test_sidechain_tool_result_excluded() {
    let episodes = episodes_of(
        &[
            sidechain_user("agent-abc", "Investigate the parser module structure."),
            sidechain_tool_result("agent-abc"),
            sidechain_assistant_text(
                "agent-abc",
                "The parser uses a registry pattern with tree-sitter grammars.",
            ),
        ],
        "sc123456",
    );
    assert_eq!(episodes.len(), 1);
    assert!(!episodes[0].text.contains("output data"));
    assert!(episodes[0].text.contains("registry pattern"));
}

#[test]
fn test_system_prompts_filtered() {
    let episodes = episodes_of(
        &[
            main_user("# Orchestrator\\nYou are supervising a worker agent that executes tasks."),
            main_user("What does the authentication middleware do in this project?"),
            main_assistant_text("The middleware validates bearer tokens on every request."),
        ],
        "sys12345",
    );
    assert_eq!(episodes.len(), 1);
    assert!(!episodes[0].text.contains("Orchestrator"));
    assert!(episodes[0].text.contains("bearer tokens"));
}

#[test]
fn test_short_messages_filtered() {
    let episodes = episodes_of(
        &[
            main_user("yes"),
            main_user("ok sure"),
            main_user("This is a substantive question about the architecture of the system."),
            main_assistant_text("Here is a detailed explanation of the system architecture."),
        ],
        "short123",
    );
    assert_eq!(episodes.len(), 1);
    assert!(!episodes[0].text.contains("yes"));
    assert!(!episodes[0].text.contains("ok sure"));
    assert!(episodes[0].text.contains("substantive question"));
}

#[test]
fn test_empty_session_no_episodes() {
    let episodes = episodes_of(
        &[
            r#"{"type":"file-history-snapshot","snapshot":{}}"#.to_string(),
            main_assistant_tool_use(),
        ],
        "empty123",
    );
    assert!(episodes.is_empty());
}

#[test]
fn test_multiple_sidechains_separate_episodes() {
    let episodes = episodes_of(
        &[
            main_user("Run tests and also check the documentation for errors."),
            sidechain_user("test-runner", "Execute cargo test and report all results."),
            sidechain_assistant_text("test-runner", "All 32 tests passed in the workspace."),
            sidechain_user(
                "doc-checker",
                "Scan all markdown files for broken links and formatting issues.",
            ),
            sidechain_assistant_text(
                "doc-checker",
                "Found 2 broken links in README.md pointing to removed sections.",
            ),
        ],
        "multi123",
    );
    assert_eq!(episodes.len(), 3);
    let names: Vec<&str> = episodes.iter().map(|e| e.name.as_str()).collect();
    assert!(names.contains(&"session-multi123"));
    assert!(names.contains(&"session-multi123-test-runner"));
    assert!(names.contains(&"session-multi123-doc-checker"));
}

#[test]
fn test_user_content_array_format() {
    let episodes = episodes_of(
        &[
            r#"{"type":"user","isSidechain":false,"message":{"role":"user","content":[{"type":"text","text":"How does the query engine work in this codebase?"}]}}"#.to_string(),
            main_assistant_text("The query engine uses IDF-weighted activation and SLERP drift."),
        ],
        "arr12345",
    );
    assert_eq!(episodes.len(), 1);
    assert!(episodes[0].text.contains("query engine"));
}

// --- extract_session_text ---

#[test]
fn test_extract_session_text_includes_thinking() {
    let entries = write_transcript(&[
        main_user("Explain quaternion SLERP interpolation in detail."),
        main_assistant_thinking("SLERP computes shortest-arc interpolation on the unit sphere."),
        main_assistant_text("SLERP produces constant-speed rotation between two quaternions."),
    ]);
    let text = extract_session_text(&entries);
    assert!(text.contains("shortest-arc"));
    assert!(text.contains("constant-speed"));
}

#[test]
fn test_extract_session_text_filters_system_prompts() {
    let entries = write_transcript(&[
        main_user("# Orchestrator\\nYou are supervising a worker agent..."),
        main_user("What does the authentication middleware do in this project?"),
        main_assistant_text("The middleware validates bearer tokens and checks expiry."),
    ]);
    let text = extract_session_text(&entries);
    assert!(!text.contains("Orchestrator"));
    assert!(text.contains("authentication middleware"));
}

#[test]
fn test_extract_session_text_empty_session() {
    let entries = write_transcript(&[r#"{"type":"file-history-snapshot","snapshot":{}}"#.to_string()]);
    let text = extract_session_text(&entries);
    assert!(text.is_empty());
}

// --- Unit helpers ---

#[test]
fn test_encode_path() {
    assert_eq!(encode_path("/Users/foo/my-project"), "-Users-foo-my-project");
    assert_eq!(encode_path("/a/b/c"), "-a-b-c");
}

#[test]
fn test_is_system_prompt() {
    assert!(is_system_prompt("# Orchestrator\nSome instructions"));
    assert!(is_system_prompt("# Authority\nThe Human controls this"));
    assert!(is_system_prompt("<system-reminder>something</system-reminder>"));
    assert!(!is_system_prompt("How does the database migration work?"));
}

// --- Further cases ---

#[test]
fn exact_episode_text_joins_parts_with_blank_lines() {
    let episodes = episodes_of(
        &[
            main_user("How does authentication work in this codebase?"),
            main_assistant_text("The auth middleware uses JWT tokens stored in cookies."),
        ],
        "p",
    );
    assert_eq!(episodes.len(), 1);
    assert_eq!(
        episodes[0].text,
        // The stripped user turn ends its paragraph with a newline.
        "[user]\nHow does authentication work in this codebase?\n\n\n[assistant]\nThe auth middleware uses JWT tokens stored in cookies."
    );
}

#[test]
fn sidechain_episodes_come_in_key_order_and_names_are_cut_to_30_chars() {
    let long = "a-very-long-agent-slug-that-goes-on-and-on";
    let episodes = episodes_of(
        &[
            sidechain_user("zeta", "Work done by the zeta agent on the parser."),
            sidechain_user(long, "Work done by the long-named agent on the store."),
            sidechain_user("alpha", "Work done by the alpha agent on the query engine."),
        ],
        "ord",
    );
    let names: Vec<&str> = episodes.iter().map(|e| e.name.as_str()).collect();
    assert_eq!(
        names,
        vec![
            "session-ord-a-very-long-agent-slug-that-go",
            "session-ord-alpha",
            "session-ord-zeta"
        ]
    );
}

#[test]
fn sidechain_without_slug_uses_agent_id_then_agent() {
    let with_id = r#"{"type":"user","isSidechain":true,"agentId":"worker7","message":{"role":"user","content":"Subagent prompt that is long enough to keep."}}"#.to_string();
    let anonymous = r#"{"type":"user","isSidechain":true,"message":{"role":"user","content":"Another subagent prompt that is long enough."}}"#.to_string();
    let episodes = episodes_of(&[with_id, anonymous], "k");
    let names: Vec<&str> = episodes.iter().map(|e| e.name.as_str()).collect();
    assert_eq!(names, vec!["session-k-agent", "session-k-worker7"]);
}

#[test]
fn exactly_five_exchanges_make_one_unnumbered_episode() {
    let mut lines = Vec::new();
    for i in 0..5 {
        lines.push(main_user(&format!("Question number {i} about the storage layer design")));
    }
    let episodes = episodes_of(&lines, "five");
    assert_eq!(episodes.len(), 1);
    assert_eq!(episodes[0].name, "session-five");
    let mut lines6 = lines.clone();
    lines6.push(main_user("Question number 5 about the storage layer design"));
    let episodes = episodes_of(&lines6, "six");
    let names: Vec<&str> = episodes.iter().map(|e| e.name.as_str()).collect();
    assert_eq!(names, vec!["session-six-1", "session-six-2"]);
}

#[test]
fn strip_markdown_keeps_text_and_structure() {
    assert_eq!(strip_markdown("# Title\n\nSome *emphasis* here."), "Title\nSome emphasis here.\n");
    assert_eq!(strip_markdown("a\nb"), "a\nb\n");
}

#[test]
fn sessions_sort_by_id() {
    let s = |id: &str| SessionInfo { session_id: id.to_string(), path: format!("/p/{id}.jsonl") };
    let sorted = sort_sessions(vec![s("def-456"), s("abc-123"), s("Zed"), s("abc-124")]);
    let ids: Vec<&str> = sorted.iter().map(|x| x.session_id.as_str()).collect();
    assert_eq!(ids, vec!["Zed", "abc-123", "abc-124", "def-456"]);
    assert_eq!(sorted[1].path, "/p/abc-123.jsonl");
}

#[test]
fn sessions_with_equal_ids_keep_their_order() {
    let s = |id: &str, path: &str| SessionInfo { session_id: id.to_string(), path: path.to_string() };
    let sorted = sort_sessions(vec![s("b", "/1"), s("a", "/2"), s("b", "/3"), s("a", "/4"), s("b", "/5")]);
    let order: Vec<(&str, &str)> = sorted.iter().map(|x| (x.session_id.as_str(), x.path.as_str())).collect();
    assert_eq!(order, vec![("a", "/2"), ("a", "/4"), ("b", "/1"), ("b", "/3"), ("b", "/5")]);
}

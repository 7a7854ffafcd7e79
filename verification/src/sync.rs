//! Session transcripts into episodes.
//!
//! A transcript is a sequence of JSON entries (one per line; lines that are
//! empty or not JSON are skipped by the reader). Main-chain content is
//! grouped into exchanges (one per user turn) and chunked into episodes of
//! `EXCHANGES_PER_EPISODE` exchanges; each sidechain agent's content
//! becomes an episode of its own. Tool calls, tool results, system prompts
//! and fragments shorter than `MIN_TEXT_LEN` bytes are left out; markdown
//! is reduced to its text.
use pulldown_cmark::{Event, Options, Parser, TagEnd};
use vstd::prelude::*;

use crate::compose::join_with;
use crate::json::{json_get, json_str, str_opt, Json};
use crate::time::decimal;
use crate::text::{
    chars_of, contains_chars, contains_seq, has_prefix, occurs_at_exec, slice_chars,
    string_from_chars, trim_chars, trim_ws, TrimClass,
};
use vstd::string::StringExecFns;

verus! {

/// How many user turns make one main-chain episode.
pub const EXCHANGES_PER_EPISODE: usize = 5;

/// Minimum length, in bytes, of a text fragment that is kept.
pub const MIN_TEXT_LEN: usize = 20;

/// Hook payload sent by the agent host on stdin when a session compacts or
/// stops.
pub struct HookInput {
    pub session_id: String,
    pub transcript_path: String,
    /// `PreCompact` or `Stop`.
    pub hook_event_name: Option<String>,
}

/// A discovered session transcript file.
pub struct SessionInfo {
    pub session_id: String,
    pub path: String,
}

/// An episode extracted from a transcript.
#[derive(Debug)]
pub struct ExtractedEpisode {
    pub name: String,
    pub text: String,
}

/// The first 200 characters of `text`.
pub open spec fn head200(text: Seq<char>) -> Seq<char> {
    if text.len() <= 200 {
        text
    } else {
        text.take(200)
    }
}

/// A system or orchestrator prompt: boilerplate, not project knowledge.
pub open spec fn system_prompt_text(text: Seq<char>) -> bool {
    let start = head200(text);
    contains_seq(start, "# Orchestrator"@) || contains_seq(start, "# Authority"@) || contains_seq(
        start,
        "# System"@,
    ) || has_prefix(start, "<system"@)
}

/// Whether `text` looks like a system prompt: among its first 200
/// characters, `# Orchestrator`, `# Authority` or `# System`, or a start
/// with `<system`.
pub fn is_system_prompt(text: &str) -> (b: bool)
    ensures
        b == system_prompt_text(text@),
{
    proof {
        reveal_strlit("# Orchestrator");
        reveal_strlit("# Authority");
        reveal_strlit("# System");
        reveal_strlit("<system");
    }
    let chars = chars_of(text);
    let start = if chars.len() <= 200 {
        chars
    } else {
        slice_chars(&chars, 0, 200)
    };
    assert(start@ =~= head200(text@));
    let o = chars_of("# Orchestrator");
    let a = chars_of("# Authority");
    let s = chars_of("# System");
    let p = chars_of("<system");
    contains_chars(&start, o.as_slice()) || contains_chars(&start, a.as_slice()) || contains_chars(
        &start,
        s.as_slice(),
    ) || occurs_at_exec(&start, p.as_slice(), 0)
}

/// A path with every `/` replaced by `-`.
pub open spec fn encoded_path(path: Seq<char>) -> Seq<char> {
    path.map_values(|c: char| if c == '/' {
        '-'
    } else {
        c
    })
}

/// Encode a filesystem path as the agent host names its project
/// directories: `/Users/foo/bar` becomes `-Users-foo-bar`.
pub fn encode_path(path: &str) -> (r: String)
    ensures
        r@ == encoded_path(path@),
{
    let chars = chars_of(path);
    let mut out: Vec<char> = Vec::new();
    let mut i: usize = 0;
    while i < chars.len()
        invariant
            i <= chars@.len(),
            chars@ == path@,
            out@ == encoded_path(path@).take(i as int),
        decreases chars.len() - i,
    {
        let c = chars[i];
        out.push(if c == '/' {
            '-'
        } else {
            c
        });
        assert(out@ =~= encoded_path(path@).take(i + 1));
        i = i + 1;
    }
    assert(encoded_path(path@).take(chars@.len() as int) =~= encoded_path(path@));
    string_from_chars(out.as_slice())
}

/// A markdown event, as far as stripping reads it.
pub enum MdEvent {
    Text(String),
    Code(String),
    SoftBreak,
    HardBreak,
    EndTableCell,
    EndTableRow,
    EndHeading,
    EndParagraph,
    EndItem,
    Other,
}

/// Abstract value of a markdown event.
pub enum MdEventView {
    Text(Seq<char>),
    Code(Seq<char>),
    SoftBreak,
    HardBreak,
    EndTableCell,
    EndTableRow,
    EndHeading,
    EndParagraph,
    EndItem,
    Other,
}

impl View for MdEvent {
    type V = MdEventView;

    open spec fn view(&self) -> MdEventView {
        match self {
            MdEvent::Text(t) => MdEventView::Text(t@),
            MdEvent::Code(t) => MdEventView::Code(t@),
            MdEvent::SoftBreak => MdEventView::SoftBreak,
            MdEvent::HardBreak => MdEventView::HardBreak,
            MdEvent::EndTableCell => MdEventView::EndTableCell,
            MdEvent::EndTableRow => MdEventView::EndTableRow,
            MdEvent::EndHeading => MdEventView::EndHeading,
            MdEvent::EndParagraph => MdEventView::EndParagraph,
            MdEvent::EndItem => MdEventView::EndItem,
            MdEvent::Other => MdEventView::Other,
        }
    }
}

/// The views of a sequence of markdown events.
pub open spec fn md_views(v: Seq<MdEvent>) -> Seq<MdEventView> {
    v.map_values(|e: MdEvent| e@)
}

/// What `pulldown_cmark::Parser::new_ext` (tables and strikethrough on)
/// yields for a markdown text, event by event.
pub uninterp spec fn markdown_events_of(md: Seq<char>) -> Seq<MdEventView>;

/// The events of a markdown text, by `pulldown_cmark::Parser::new_ext` with
/// tables and strikethrough enabled; events that stripping does not read
/// become `Other`.
#[verifier::external_body]
fn markdown_events(md: &str) -> (r: Vec<MdEvent>)
    ensures
        md_views(r@) == markdown_events_of(md@),
{
    let opts = Options::ENABLE_TABLES | Options::ENABLE_STRIKETHROUGH;
    Parser::new_ext(md, opts).map(|e| match e {
        Event::Text(t) => MdEvent::Text(t.into_string()),
        Event::Code(t) => MdEvent::Code(t.into_string()),
        Event::SoftBreak => MdEvent::SoftBreak,
        Event::HardBreak => MdEvent::HardBreak,
        Event::End(TagEnd::TableCell) => MdEvent::EndTableCell,
        Event::End(TagEnd::TableRow) => MdEvent::EndTableRow,
        Event::End(TagEnd::Heading(_)) => MdEvent::EndHeading,
        Event::End(TagEnd::Paragraph) => MdEvent::EndParagraph,
        Event::End(TagEnd::Item) => MdEvent::EndItem,
        _ => MdEvent::Other,
    }).collect()
}

/// The plain text of markdown events: text and code as they are, line
/// breaks and the ends of table rows, headings, paragraphs and list items
/// as newlines, the end of a table cell as a space.
pub open spec fn stripped(events: Seq<MdEventView>) -> Seq<char>
    decreases events.len(),
{
    if events.len() == 0 {
        seq![]
    } else {
        let prev = stripped(events.drop_last());
        match events.last() {
            MdEventView::Text(t) => prev + t,
            MdEventView::Code(t) => prev + t,
            MdEventView::SoftBreak => prev.push('\n'),
            MdEventView::HardBreak => prev.push('\n'),
            MdEventView::EndTableCell => prev.push(' '),
            MdEventView::EndTableRow => prev.push('\n'),
            MdEventView::EndHeading => prev.push('\n'),
            MdEventView::EndParagraph => prev.push('\n'),
            MdEventView::EndItem => prev.push('\n'),
            MdEventView::Other => prev,
        }
    }
}

/// The plain text of markdown events.
pub fn render_markdown_events(events: &Vec<MdEvent>) -> (r: String)
    ensures
        r@ == stripped(md_views(events@)),
{
    let ghost ev = md_views(events@);
    let mut out: Vec<char> = Vec::new();
    let mut i: usize = 0;
    assert(ev.take(0) =~= seq![]);
    while i < events.len()
        invariant
            i <= events@.len(),
            ev == md_views(events@),
            out@ == stripped(ev.take(i as int)),
        decreases events.len() - i,
    {
        assert(ev.take(i + 1).drop_last() =~= ev.take(i as int));
        assert(ev.take(i + 1).last() == events@[i as int]@);
        match &events[i] {
            MdEvent::Text(t) | MdEvent::Code(t) => {
                let cs = chars_of(t.as_str());
                let ghost before = out@;
                let mut k: usize = 0;
                while k < cs.len()
                    invariant
                        k <= cs@.len(),
                        out@ == before + cs@.take(k as int),
                    decreases cs.len() - k,
                {
                    out.push(cs[k]);
                    assert(out@ =~= before + cs@.take(k + 1));
                    k = k + 1;
                }
                assert(cs@.take(cs@.len() as int) =~= cs@);
            },
            MdEvent::SoftBreak | MdEvent::HardBreak => out.push('\n'),
            MdEvent::EndTableCell => out.push(' '),
            MdEvent::EndTableRow | MdEvent::EndHeading | MdEvent::EndParagraph | MdEvent::EndItem => {
                out.push('\n')
            },
            MdEvent::Other => {},
        }
        i = i + 1;
    }
    assert(ev.take(ev.len() as int) =~= ev);
    string_from_chars(out.as_slice())
}

/// Markdown reduced to plain text.
pub open spec fn stripped_markdown(md: Seq<char>) -> Seq<char> {
    stripped(markdown_events_of(md))
}

/// Strip markdown formatting to plain text: tables, headers, emphasis,
/// links, lists and code spans are reduced to their text, with structural
/// whitespace.
pub fn strip_markdown(md: &str) -> (r: String)
    ensures
        r@ == stripped_markdown(md@),
{
    let events = markdown_events(md);
    render_markdown_events(&events)
}

/// Length in bytes of a text, as `str::len` reports it.
pub open spec fn byte_len(t: Seq<char>) -> int {
    vstd::utf8::encode_utf8(t).len() as usize as int
}

/// The texts of the `text` blocks of a message's content array.
pub open spec fn text_blocks(blocks: Seq<Json>) -> Seq<Seq<char>>
    decreases blocks.len(),
{
    if blocks.len() == 0 {
        seq![]
    } else {
        let prev = text_blocks(blocks.drop_last());
        let b = blocks.last();
        if str_opt(json_get(b, "type"@)) == Some("text"@) && str_opt(json_get(b, "text"@)).is_some() {
            prev.push(str_opt(json_get(b, "text"@)).unwrap())
        } else {
            prev
        }
    }
}

/// The content of an entry's message.
pub open spec fn message_content(obj: Json) -> Option<Json> {
    match json_get(obj, "message"@) {
        Some(m) => json_get(m, "content"@),
        None => None,
    }
}

/// The text of a user message: its string content, or its `text` blocks
/// joined by newlines; nothing when it has neither (tool results).
pub open spec fn user_text(obj: Json) -> Option<Seq<char>> {
    match message_content(obj) {
        Some(Json::Str(s)) => Some(s@),
        Some(Json::Array(arr)) => {
            let ts = text_blocks(arr@);
            if ts.len() == 0 {
                None
            } else {
                Some(join_with(ts, "\n"@))
            }
        },
        _ => None,
    }
}

/// Extract the text of a user message: string content, or the `text`
/// blocks of array content joined by newlines; `None` for tool results.
pub fn extract_user_text(obj: &Json) -> (r: Option<String>)
    ensures
        match r {
            Some(t) => user_text(*obj) == Some(t@),
            None => user_text(*obj).is_none(),
        },
{
    let message = match obj.get("message") {
        Some(m) => m,
        None => return None,
    };
    let content = match message.get("content") {
        Some(c) => c,
        None => return None,
    };
    match content {
        Json::Str(s) => Some(s.clone()),
        Json::Array(arr) => {
            let mut texts: Vec<String> = Vec::new();
            let mut i: usize = 0;
            assert(arr@.take(0) =~= seq![]);
            while i < arr.len()
                invariant
                    i <= arr@.len(),
                    crate::text::strings_view(texts@) == text_blocks(arr@.take(i as int)),
                decreases arr.len() - i,
            {
                let b = &arr[i];
                assert(arr@.take(i + 1).drop_last() =~= arr@.take(i as int));
                assert(arr@.take(i + 1).last() == *b);
                let is_text = match b.get("type") {
                    Some(t) => match t.as_str() {
                        Some(ts) => crate::text::str_eq(ts, "text"),
                        None => false,
                    },
                    None => false,
                };
                if is_text {
                    match b.get("text") {
                        Some(t) => match t.as_str() {
                            Some(ts) => {
                                let ghost before = crate::text::strings_view(texts@);
                                texts.push(ts.to_owned());
                                assert(crate::text::strings_view(texts@) =~= before.push(ts@));
                            },
                            None => {},
                        },
                        None => {},
                    }
                }
                i = i + 1;
            }
            assert(arr@.take(arr@.len() as int) =~= arr@);
            if texts.len() == 0 {
                None
            } else {
                Some(crate::compose::join_lines(&texts))
            }
        },
        _ => None,
    }
}

/// The raw text of an assistant content block: a `text` block's text or a
/// `thinking` block's thinking; nothing for other blocks (tool use).
pub open spec fn block_raw(b: Json) -> Option<Seq<char>> {
    let t = str_opt(json_get(b, "type"@));
    if t == Some("text"@) {
        str_opt(json_get(b, "text"@))
    } else if t == Some("thinking"@) {
        str_opt(json_get(b, "thinking"@))
    } else {
        None
    }
}

/// The substantive contents of assistant content blocks: markdown stripped,
/// trimmed, empty ones dropped.
pub open spec fn blocks_text(blocks: Seq<Json>) -> Seq<Seq<char>>
    decreases blocks.len(),
{
    if blocks.len() == 0 {
        seq![]
    } else {
        let prev = blocks_text(blocks.drop_last());
        match block_raw(blocks.last()) {
            Some(raw) => {
                let t = trim_ws(stripped_markdown(raw));
                if t.len() > 0 {
                    prev.push(t)
                } else {
                    prev
                }
            },
            None => prev,
        }
    }
}

/// The substantive contents of an assistant message.
pub open spec fn content_blocks(obj: Json) -> Seq<Seq<char>> {
    match message_content(obj) {
        Some(Json::Array(arr)) => blocks_text(arr@),
        _ => seq![],
    }
}

/// The raw text of one assistant content block.
fn raw_block_text(b: &Json) -> (r: Option<String>)
    ensures
        match r {
            Some(t) => block_raw(*b) == Some(t@),
            None => block_raw(*b).is_none(),
        },
{
    let t = match b.get("type") {
        Some(t) => match t.as_str() {
            Some(ts) => ts,
            None => return None,
        },
        None => return None,
    };
    let field = if crate::text::str_eq(t, "text") {
        "text"
    } else if crate::text::str_eq(t, "thinking") {
        "thinking"
    } else {
        return None;
    };
    match b.get(field) {
        Some(v) => match v.as_str() {
            Some(s) => Some(s.to_owned()),
            None => None,
        },
        None => None,
    }
}

/// Extract the text and thinking blocks of an assistant message, markdown
/// stripped and trimmed; tool-use blocks are skipped.
pub fn extract_content_blocks(obj: &Json) -> (r: Vec<String>)
    ensures
        crate::text::strings_view(r@) == content_blocks(*obj),
{
    let mut out: Vec<String> = Vec::new();
    let message = match obj.get("message") {
        Some(m) => m,
        None => return out,
    };
    let content = match message.get("content") {
        Some(c) => c,
        None => return out,
    };
    let arr = match content.as_array() {
        Some(a) => a,
        None => {
            assert(crate::text::strings_view(out@) =~= seq![]);
            return out;
        },
    };
    let mut i: usize = 0;
    assert(arr@.take(0) =~= seq![]);
    while i < arr.len()
        invariant
            i <= arr@.len(),
            crate::text::strings_view(out@) == blocks_text(arr@.take(i as int)),
        decreases arr.len() - i,
    {
        assert(arr@.take(i + 1).drop_last() =~= arr@.take(i as int));
        assert(arr@.take(i + 1).last() == arr@[i as int]);
        match raw_block_text(&arr[i]) {
            Some(raw) => {
                let text = strip_markdown(raw.as_str());
                let cs = chars_of(text.as_str());
                let t = trim_chars(&cs, &TrimClass::Whitespace);
                if t.len() > 0 {
                    let ghost before = crate::text::strings_view(out@);
                    out.push(string_from_chars(t.as_slice()));
                    assert(crate::text::strings_view(out@) =~= before.push(t@));
                }
            },
            None => {},
        }
        i = i + 1;
    }
    assert(arr@.take(arr@.len() as int) =~= arr@);
    out
}

/// The fragments of `parts` at least `MIN_TEXT_LEN` bytes long.
pub open spec fn long_parts(parts: Seq<Seq<char>>) -> Seq<Seq<char>>
    decreases parts.len(),
{
    if parts.len() == 0 {
        seq![]
    } else {
        let prev = long_parts(parts.drop_last());
        if byte_len(parts.last()) >= MIN_TEXT_LEN {
            prev.push(parts.last())
        } else {
            prev
        }
    }
}

/// The entry's `type`, or empty text.
pub open spec fn entry_type(obj: Json) -> Seq<char> {
    match str_opt(json_get(obj, "type"@)) {
        Some(t) => t,
        None => seq![],
    }
}

/// What a transcript entry contributes: `[user]` and the stripped text of a
/// user turn that is long enough and no system prompt, or `[assistant]`
/// and the long enough content blocks of an assistant message.
pub open spec fn entry_part(obj: Json) -> Option<Seq<char>> {
    if entry_type(obj) == "user"@ {
        match user_text(obj) {
            Some(t) => if byte_len(t) >= MIN_TEXT_LEN && !system_prompt_text(t) {
                Some("[user]\n"@ + stripped_markdown(t))
            } else {
                None
            },
            None => None,
        }
    } else if entry_type(obj) == "assistant"@ {
        let ps = long_parts(content_blocks(obj));
        if ps.len() > 0 {
            Some("[assistant]\n"@ + join_with(ps, "\n"@))
        } else {
            None
        }
    } else {
        None
    }
}

/// Whether the entry belongs to a sidechain (a subagent's work).
pub open spec fn in_sidechain(obj: Json) -> bool {
    match json_get(obj, "isSidechain"@) {
        Some(Json::Bool(b)) => b,
        _ => false,
    }
}

/// The agent a sidechain entry belongs to: its `slug`, else its `agentId`,
/// else `agent`.
pub open spec fn agent_key(obj: Json) -> Seq<char> {
    let k = match json_get(obj, "slug"@) {
        Some(v) => json_str(v),
        None => str_opt(json_get(obj, "agentId"@)),
    };
    match k {
        Some(t) => t,
        None => "agent"@,
    }
}

/// The entry's `type`, or empty text.
fn entry_type_of(obj: &Json) -> (t: &str)
    ensures
        t@ == entry_type(*obj),
{
    proof {
        reveal_strlit("");
    }
    match obj.get("type") {
        Some(t) => match t.as_str() {
            Some(ts) => ts,
            None => "",
        },
        None => "",
    }
}

/// Whether the entry belongs to a sidechain, computed.
fn sidechain_flag(obj: &Json) -> (b: bool)
    ensures
        b == in_sidechain(*obj),
{
    match obj.get("isSidechain") {
        Some(v) => match v.as_bool() {
            Some(b) => b,
            None => false,
        },
        None => false,
    }
}

/// The agent a sidechain entry belongs to, computed.
fn agent_key_of(obj: &Json) -> (k: &str)
    ensures
        k@ == agent_key(*obj),
{
    let found = match obj.get("slug") {
        Some(v) => v.as_str(),
        None => match obj.get("agentId") {
            Some(v) => v.as_str(),
            None => None,
        },
    };
    match found {
        Some(k) => k,
        None => "agent",
    }
}

/// The contribution of one entry, computed.
pub fn entry_contribution(obj: &Json) -> (r: Option<String>)
    ensures
        match r {
            Some(p) => entry_part(*obj) == Some(p@),
            None => entry_part(*obj).is_none(),
        },
{
    let t = entry_type_of(obj);
    if crate::text::str_eq(t, "user") {
        let text = match extract_user_text(obj) {
            Some(x) => x,
            None => return None,
        };
        if text.as_str().len() >= MIN_TEXT_LEN && !is_system_prompt(text.as_str()) {
            let mut part = "[user]\n".to_owned();
            let stripped = strip_markdown(text.as_str());
            part.append(stripped.as_str());
            Some(part)
        } else {
            None
        }
    } else if crate::text::str_eq(t, "assistant") {
        let blocks = extract_content_blocks(obj);
        let ghost bv = crate::text::strings_view(blocks@);
        let mut parts: Vec<String> = Vec::new();
        let mut i: usize = 0;
        assert(bv.take(0) =~= seq![]);
        while i < blocks.len()
            invariant
                i <= blocks@.len(),
                bv == crate::text::strings_view(blocks@),
                crate::text::strings_view(parts@) == long_parts(bv.take(i as int)),
            decreases blocks.len() - i,
        {
            assert(bv.take(i + 1).drop_last() =~= bv.take(i as int));
            assert(bv.take(i + 1).last() == blocks@[i as int]@);
            if blocks[i].as_str().len() >= MIN_TEXT_LEN {
                let ghost before = crate::text::strings_view(parts@);
                parts.push(blocks[i].clone());
                assert(crate::text::strings_view(parts@) =~= before.push(blocks@[i as int]@));
            }
            i = i + 1;
        }
        assert(bv.take(bv.len() as int) =~= bv);
        if parts.len() > 0 {
            let mut part = "[assistant]\n".to_owned();
            let joined = crate::compose::join_lines(&parts);
            part.append(joined.as_str());
            Some(part)
        } else {
            None
        }
    } else {
        None
    }
}

/// Lexicographic order of texts by code point (the order of `String`).
pub open spec fn text_lt(a: Seq<char>, b: Seq<char>) -> bool
    decreases a.len(),
{
    if a.len() == 0 {
        b.len() > 0
    } else if b.len() == 0 {
        false
    } else if a[0] != b[0] {
        (a[0] as int) < (b[0] as int)
    } else {
        text_lt(a.drop_first(), b.drop_first())
    }
}

/// Two texts are equal or one comes first, and not both ways.
pub proof fn lemma_text_lt_total(a: Seq<char>, b: Seq<char>)
    ensures
        a == b || text_lt(a, b) || text_lt(b, a),
        !(text_lt(a, b) && text_lt(b, a)),
        !text_lt(a, a),
    decreases a.len(),
{
    if a.len() > 0 && b.len() > 0 {
        if a[0] == b[0] {
            lemma_text_lt_total(a.drop_first(), b.drop_first());
            if a.drop_first() == b.drop_first() {
                assert(a =~= seq![a[0]] + a.drop_first());
                assert(b =~= seq![b[0]] + b.drop_first());
            }
        }
    } else if a.len() == 0 && b.len() == 0 {
        assert(a =~= b);
    }
    if a.len() > 0 {
        lemma_text_lt_total(a.drop_first(), a.drop_first());
    }
}

/// The order of texts is transitive.
pub proof fn lemma_text_lt_trans(a: Seq<char>, b: Seq<char>, c: Seq<char>)
    requires
        text_lt(a, b),
        text_lt(b, c),
    ensures
        text_lt(a, c),
    decreases a.len(),
{
    if a.len() > 0 && b.len() > 0 && c.len() > 0 {
        if a[0] == b[0] && b[0] == c[0] {
            lemma_text_lt_trans(a.drop_first(), b.drop_first(), c.drop_first());
        }
    }
}

/// Whether `a` comes before `b`.
fn text_less(a: &Vec<char>, b: &Vec<char>) -> (r: bool)
    ensures
        r == text_lt(a@, b@),
{
    let mut i: usize = 0;
    assert(a@.skip(0) =~= a@);
    assert(b@.skip(0) =~= b@);
    while i < a.len() && i < b.len() && a[i] == b[i]
        invariant
            i <= a@.len(),
            i <= b@.len(),
            text_lt(a@, b@) == text_lt(a@.skip(i as int), b@.skip(i as int)),
        decreases a.len() - i,
    {
        assert(a@.skip(i as int).drop_first() =~= a@.skip(i + 1));
        assert(b@.skip(i as int).drop_first() =~= b@.skip(i + 1));
        assert(a@.skip(i as int)[0] == a@[i as int]);
        assert(b@.skip(i as int)[0] == b@[i as int]);
        i = i + 1;
    }
    if i == a.len() {
        assert(a@.skip(i as int).len() == 0);
        i < b.len()
    } else if i == b.len() {
        assert(b@.skip(i as int).len() == 0);
        false
    } else {
        assert(a@.skip(i as int)[0] == a@[i as int]);
        assert(b@.skip(i as int)[0] == b@[i as int]);
        a[i] < b[i]
    }
}

/// The keys of a sequence of (key, parts) entries.
pub open spec fn entry_keys(es: Seq<(Seq<char>, Seq<Seq<char>>)>) -> Seq<Seq<char>> {
    es.map_values(|e: (Seq<char>, Seq<Seq<char>>)| e.0)
}

/// Entries are in strictly increasing order of key.
pub open spec fn sorted_entries(es: Seq<(Seq<char>, Seq<Seq<char>>)>) -> bool {
    forall|i: int, j: int| 0 <= i < j < es.len() ==> text_lt(#[trigger] es[i].0, #[trigger] es[j].0)
}

/// The entries as a map from key to parts.
pub open spec fn entries_map(es: Seq<(Seq<char>, Seq<Seq<char>>)>) -> Map<Seq<char>, Seq<Seq<char>>> {
    Map::new(
        |k: Seq<char>| exists|i: int| 0 <= i < es.len() && es[i].0 == k,
        |k: Seq<char>| es[key_index(es, k)].1,
    )
}

/// A position of `k` among the keys of `es`, if it occurs.
pub open spec fn key_index(es: Seq<(Seq<char>, Seq<Seq<char>>)>, k: Seq<char>) -> int {
    choose|i: int| 0 <= i < es.len() && es[i].0 == k
}

/// In sorted entries each key occurs once.
proof fn lemma_sorted_keys_distinct(es: Seq<(Seq<char>, Seq<Seq<char>>)>, i: int, j: int)
    requires
        sorted_entries(es),
        0 <= i < es.len(),
        0 <= j < es.len(),
        es[i].0 == es[j].0,
    ensures
        i == j,
{
    if i < j {
        assert(text_lt(es[i].0, es[j].0));
        lemma_text_lt_total(es[i].0, es[i].0);
    } else if j < i {
        assert(text_lt(es[j].0, es[i].0));
        lemma_text_lt_total(es[i].0, es[i].0);
    }
}

/// The map of sorted entries gives each entry's key its parts.
proof fn lemma_entries_map_at(es: Seq<(Seq<char>, Seq<Seq<char>>)>, i: int)
    requires
        sorted_entries(es),
        0 <= i < es.len(),
    ensures
        entries_map(es).contains_key(es[i].0),
        entries_map(es)[es[i].0] == es[i].1,
{
    let k = es[i].0;
    assert(exists|j: int| 0 <= j < es.len() && es[j].0 == k);
    let j = key_index(es, k);
    lemma_sorted_keys_distinct(es, i, j);
}

/// Dropping the first of sorted entries drops its key from the map.
proof fn lemma_entries_map_tail(es: Seq<(Seq<char>, Seq<Seq<char>>)>)
    requires
        sorted_entries(es),
        es.len() > 0,
    ensures
        sorted_entries(es.drop_first()),
        entries_map(es.drop_first()) == entries_map(es).remove(es[0].0),
{
    let t = es.drop_first();
    assert forall|i: int, j: int| 0 <= i < j < t.len() implies text_lt(#[trigger] t[i].0, #[trigger] t[j].0) by {
        assert(text_lt(es[i + 1].0, es[j + 1].0));
    }
    let m = entries_map(es).remove(es[0].0);
    let mt = entries_map(t);
    assert forall|k: Seq<char>| mt.contains_key(k) <==> m.contains_key(k) by {
        if mt.contains_key(k) {
            let i = choose|i: int| 0 <= i < t.len() && t[i].0 == k;
            assert(es[i + 1].0 == k);
            if k == es[0].0 {
                lemma_sorted_keys_distinct(es, 0, i + 1);
            }
        }
        if m.contains_key(k) {
            let i = choose|i: int| 0 <= i < es.len() && es[i].0 == k;
            assert(i != 0);
            assert(t[i - 1].0 == k);
        }
    }
    assert forall|k: Seq<char>| #[trigger] mt.contains_key(k) implies mt[k] == m[k] by {
        let i = choose|i: int| 0 <= i < t.len() && t[i].0 == k;
        assert(es[i + 1] == t[i]);
        lemma_entries_map_at(t, i);
        lemma_entries_map_at(es, i + 1);
    }
    assert(mt =~= m);
}

/// Entries sorted by key are determined by the map they hold: two sorted
/// sequences of entries that hold the same map are the same.
pub proof fn lemma_sorted_entries_unique(
    a: Seq<(Seq<char>, Seq<Seq<char>>)>,
    b: Seq<(Seq<char>, Seq<Seq<char>>)>,
)
    requires
        sorted_entries(a),
        sorted_entries(b),
        entries_map(a) == entries_map(b),
    ensures
        a == b,
    decreases a.len(),
{
    if a.len() == 0 || b.len() == 0 {
        if a.len() > 0 {
            lemma_entries_map_at(a, 0);
            assert(entries_map(b).contains_key(a[0].0));
        }
        if b.len() > 0 {
            lemma_entries_map_at(b, 0);
            assert(entries_map(a).contains_key(b[0].0));
        }
        assert(a =~= b);
    } else {
        lemma_entries_map_at(a, 0);
        lemma_entries_map_at(b, 0);
        let k = a[0].0;
        assert(entries_map(b).contains_key(k));
        let j = choose|j: int| 0 <= j < b.len() && b[j].0 == k;
        assert(entries_map(a).contains_key(b[0].0));
        let i = choose|i: int| 0 <= i < a.len() && a[i].0 == b[0].0;
        if j > 0 {
            assert(text_lt(b[0].0, b[j].0));
            if i > 0 {
                assert(text_lt(a[0].0, a[i].0));
                lemma_text_lt_total(a[0].0, a[i].0);
            } else {
                lemma_text_lt_total(k, k);
            }
        }
        assert(b[0].0 == k);
        lemma_entries_map_tail(a);
        lemma_entries_map_tail(b);
        lemma_sorted_entries_unique(a.drop_first(), b.drop_first());
        assert(a =~= seq![a[0]] + a.drop_first());
        assert(b =~= seq![b[0]] + b.drop_first());
    }
}

/// (key, parts) of each sidechain entry.
pub open spec fn side_views(v: Seq<(String, Vec<String>)>) -> Seq<(Seq<char>, Seq<Seq<char>>)> {
    v.map_values(|e: (String, Vec<String>)| (e.0@, crate::text::strings_view(e.1@)))
}

/// `m` with `part` appended to the parts of `key`.
pub open spec fn map_append(m: Map<Seq<char>, Seq<Seq<char>>>, key: Seq<char>, part: Seq<char>) -> Map<
    Seq<char>,
    Seq<Seq<char>>,
> {
    if m.contains_key(key) {
        m.insert(key, m[key].push(part))
    } else {
        m.insert(key, seq![part])
    }
}

/// Append `part` to the parts of `key`, keeping the entries sorted by key.
fn side_append(sides: &mut Vec<(String, Vec<String>)>, key: &str, part: String)
    requires
        sorted_entries(side_views(old(sides)@)),
    ensures
        sorted_entries(side_views(final(sides)@)),
        entries_map(side_views(final(sides)@)) == map_append(
            entries_map(side_views(old(sides)@)),
            key@,
            part@,
        ),
{
    let ghost old_es = side_views(sides@);
    let kc = chars_of(key);
    let mut p: usize = 0;
    while p < sides.len()
        invariant
            p <= sides@.len(),
            old_es == side_views(sides@),
            kc@ == key@,
            forall|j: int| 0 <= j < p ==> text_lt(#[trigger] old_es[j].0, key@),
        ensures
            p <= sides@.len(),
            old_es == side_views(sides@),
            forall|j: int| 0 <= j < p ==> text_lt(#[trigger] old_es[j].0, key@),
            p < old_es.len() ==> !text_lt(old_es[p as int].0, key@),
        decreases sides.len() - p,
    {
        let pc = chars_of(sides[p].0.as_str());
        assert(old_es[p as int].0 == pc@);
        if !text_less(&pc, &kc) {
            break;
        }
        p = p + 1;
    }
    assert(p < old_es.len() ==> !text_lt(old_es[p as int].0, key@));
    if p < sides.len() && crate::text::str_eq(sides[p].0.as_str(), key) {
        let ghost before = sides@;
        let mut entry = sides.remove(p);
        let ghost mid = sides@;
        let ghost old_parts = entry.1@;
        assert(mid == before.remove(p as int));
        entry.1.push(part);
        assert(crate::text::strings_view(entry.1@) =~= crate::text::strings_view(old_parts).push(part@));
        sides.insert(p, entry);
        proof {
            let new_es = side_views(sides@);
            assert(sides@ == mid.insert(p as int, entry));
            let target = old_es.update(p as int, (key@, old_es[p as int].1.push(part@)));
            assert forall|i: int| 0 <= i < new_es.len() implies new_es[i] == target[i] by {
                if i < p {
                    assert(sides@[i] == before[i]);
                } else if i > p {
                    assert(sides@[i] == mid[i - 1]);
                    assert(mid[i - 1] == before[i]);
                }
            }
            assert(new_es =~= target);
            lemma_map_after_update(old_es, p as int, part@);
        }
    } else {
        let mut parts: Vec<String> = Vec::new();
        parts.push(part);
        let entry = (key.to_owned(), parts);
        assert(crate::text::strings_view(entry.1@) =~= seq![part@]);
        let ghost before = sides@;
        sides.insert(p, entry);
        proof {
            let new_es = side_views(sides@);
            assert(sides@ == before.insert(p as int, entry));
            let target = old_es.insert(p as int, (key@, seq![part@]));
            assert forall|i: int| 0 <= i < new_es.len() implies new_es[i] == target[i] by {
                if i < p {
                    assert(sides@[i] == before[i]);
                } else if i > p {
                    assert(sides@[i] == before[i - 1]);
                }
            }
            assert(new_es =~= target);
            if p < old_es.len() {
                lemma_text_lt_total(old_es[p as int].0, key@);
            }
            lemma_sorted_after_insert(old_es, p as int, key@, part@);
        }
    }
}

proof fn lemma_map_after_update(es: Seq<(Seq<char>, Seq<Seq<char>>)>, p: int, part: Seq<char>)
    requires
        sorted_entries(es),
        0 <= p < es.len(),
    ensures
        sorted_entries(es.update(p, (es[p].0, es[p].1.push(part)))),
        entries_map(es.update(p, (es[p].0, es[p].1.push(part)))) == map_append(
            entries_map(es),
            es[p].0,
            part,
        ),
{
    let key = es[p].0;
    let ns = es.update(p, (key, es[p].1.push(part)));
    assert forall|i: int, j: int| 0 <= i < j < ns.len() implies text_lt(#[trigger] ns[i].0, #[trigger] ns[j].0) by {
        assert(text_lt(es[i].0, es[j].0));
    }
    assert(entries_map(es).contains_key(key));
    let m = entries_map(es);
    let nm = entries_map(ns);
    assert forall|k: Seq<char>| nm.contains_key(k) <==> map_append(m, key, part).contains_key(k) by {
        if nm.contains_key(k) {
            let i = choose|i: int| 0 <= i < ns.len() && ns[i].0 == k;
            assert(es[i].0 == k);
        }
        if m.contains_key(k) {
            let i = choose|i: int| 0 <= i < es.len() && es[i].0 == k;
            assert(ns[i].0 == k);
        }
    }
    assert forall|k: Seq<char>| #[trigger] nm.contains_key(k) implies nm[k] == map_append(m, key, part)[k] by {
        let i = choose|i: int| 0 <= i < ns.len() && ns[i].0 == k;
        let i0 = choose|i: int| 0 <= i < es.len() && es[i].0 == k;
        assert(es[i].0 == k);
        if i != i0 {
            if i < i0 {
                assert(text_lt(es[i].0, es[i0].0));
            } else {
                assert(text_lt(es[i0].0, es[i].0));
            }
            lemma_text_lt_total(k, k);
        }
        if k == key {
            if i != p {
                if i < p {
                    assert(text_lt(es[i].0, es[p].0));
                } else {
                    assert(text_lt(es[p].0, es[i].0));
                }
                lemma_text_lt_total(k, k);
            }
        } else {
            assert(i != p);
        }
    }
    assert(nm =~= map_append(m, key, part));
}

proof fn lemma_sorted_after_insert(
    es: Seq<(Seq<char>, Seq<Seq<char>>)>,
    p: int,
    key: Seq<char>,
    part: Seq<char>,
)
    requires
        sorted_entries(es),
        0 <= p <= es.len(),
        forall|j: int| 0 <= j < p ==> text_lt(#[trigger] es[j].0, key),
        p < es.len() ==> text_lt(key, es[p].0),
    ensures
        sorted_entries(es.insert(p, (key, seq![part]))),
        entries_map(es.insert(p, (key, seq![part]))) == map_append(entries_map(es), key, part),
{
    let ns = es.insert(p, (key, seq![part]));
    assert forall|i: int, j: int| 0 <= i < j < ns.len() implies text_lt(#[trigger] ns[i].0, #[trigger] ns[j].0) by {
        if j < p {
            assert(text_lt(es[i].0, es[j].0));
        } else if j == p {
            assert(text_lt(es[i].0, key));
        } else if i == p {
            if j - 1 == p {
            } else {
                assert(text_lt(es[p].0, es[j - 1].0));
                lemma_text_lt_trans(key, es[p].0, es[j - 1].0);
            }
        } else if i < p {
            assert(text_lt(es[i].0, es[j - 1].0));
        } else {
            assert(text_lt(es[i - 1].0, es[j - 1].0));
        }
    }
    let m = entries_map(es);
    let nm = entries_map(ns);
    assert(!m.contains_key(key)) by {
        if m.contains_key(key) {
            let i = choose|i: int| 0 <= i < es.len() && es[i].0 == key;
            if i < p {
                assert(text_lt(es[i].0, key));
            } else {
                assert(text_lt(key, es[p].0));
                if i > p {
                    assert(text_lt(es[p].0, es[i].0));
                    lemma_text_lt_trans(key, es[p].0, es[i].0);
                }
            }
            lemma_text_lt_total(key, key);
        }
    }
    assert(ns[p] == (key, seq![part]));
    assert forall|k: Seq<char>| nm.contains_key(k) <==> map_append(m, key, part).contains_key(k) by {
        if nm.contains_key(k) {
            let i = choose|i: int| 0 <= i < ns.len() && ns[i].0 == k;
            if i < p {
                assert(es[i].0 == k);
            } else if i > p {
                assert(es[i - 1].0 == k);
            }
        }
        if m.contains_key(k) {
            let i = choose|i: int| 0 <= i < es.len() && es[i].0 == k;
            if i < p {
                assert(ns[i].0 == k);
            } else {
                assert(ns[i + 1].0 == k);
            }
        }
    }
    assert forall|k: Seq<char>| #[trigger] nm.contains_key(k) implies nm[k] == map_append(m, key, part)[k] by {
        let i = choose|i: int| 0 <= i < ns.len() && ns[i].0 == k;
        if k == key {
            if i != p {
                if i < p {
                    assert(text_lt(ns[i].0, ns[p].0));
                } else {
                    assert(text_lt(ns[p].0, ns[i].0));
                }
                lemma_text_lt_total(k, k);
            }
        } else {
            assert(i != p);
            let e = if i < p {
                i
            } else {
                i - 1
            };
            assert(es[e].0 == k);
            let i0 = choose|i: int| 0 <= i < es.len() && es[i].0 == k;
            if i0 != e {
                if i0 < e {
                    assert(text_lt(es[i0].0, es[e].0));
                } else {
                    assert(text_lt(es[e].0, es[i0].0));
                }
                lemma_text_lt_total(k, k);
            }
        }
    }
    assert(nm =~= map_append(m, key, part));
}

/// The transcript read so far: the finished exchanges of the main chain
/// (one per user turn, with what the assistant said after it), the exchange
/// in progress, and the parts of each subagent by agent.
pub struct TranscriptView {
    pub exchanges: Seq<Seq<Seq<char>>>,
    pub current: Seq<Seq<char>>,
    pub sides: Map<Seq<char>, Seq<Seq<char>>>,
}

/// The transcript after one more entry: a sidechain entry goes to its agent;
/// a user turn on the main chain closes the exchange in progress and opens
/// a new one; an assistant message joins the exchange in progress.
pub open spec fn transcript_step(st: TranscriptView, obj: Json) -> TranscriptView {
    match entry_part(obj) {
        None => st,
        Some(p) => if in_sidechain(obj) {
            TranscriptView {
                exchanges: st.exchanges,
                current: st.current,
                sides: map_append(st.sides, agent_key(obj), p),
            }
        } else if entry_type(obj) == "user"@ {
            TranscriptView {
                exchanges: if st.current.len() > 0 {
                    st.exchanges.push(st.current)
                } else {
                    st.exchanges
                },
                current: seq![p],
                sides: st.sides,
            }
        } else {
            TranscriptView { exchanges: st.exchanges, current: st.current.push(p), sides: st.sides }
        },
    }
}

/// The transcript after all of `entries`, in order.
pub open spec fn transcript_of(entries: Seq<Json>) -> TranscriptView
    decreases entries.len(),
{
    if entries.len() == 0 {
        TranscriptView { exchanges: seq![], current: seq![], sides: Map::empty() }
    } else {
        transcript_step(transcript_of(entries.drop_last()), entries.last())
    }
}

/// The exchanges of the main chain, the last one included.
pub open spec fn main_exchanges(entries: Seq<Json>) -> Seq<Seq<Seq<char>>> {
    let st = transcript_of(entries);
    if st.current.len() > 0 {
        st.exchanges.push(st.current)
    } else {
        st.exchanges
    }
}

/// The parts held by a vector of exchanges.
pub open spec fn exchanges_view(v: Seq<Vec<String>>) -> Seq<Seq<Seq<char>>> {
    v.map_values(|x: Vec<String>| crate::text::strings_view(x@))
}

/// How many episodes `n` exchanges make, `EXCHANGES_PER_EPISODE` to each.
pub open spec fn chunk_count(n: int) -> int {
    (n + EXCHANGES_PER_EPISODE - 1) / EXCHANGES_PER_EPISODE as int
}

/// The text of the `k`-th episode of the main chain: the parts of its
/// exchanges, separated by blank lines.
pub open spec fn chunk_text(xs: Seq<Seq<Seq<char>>>, k: int) -> Seq<char> {
    let lo = k * EXCHANGES_PER_EPISODE;
    let hi = if lo + EXCHANGES_PER_EPISODE < xs.len() {
        lo + EXCHANGES_PER_EPISODE
    } else {
        xs.len() as int
    };
    join_with(xs.subrange(lo, hi).flatten(), "\n\n"@)
}

/// `session-`, the session prefix, then `suffix`.
pub open spec fn episode_name(prefix: Seq<char>, suffix: Seq<char>) -> Seq<char> {
    "session-"@ + prefix + suffix
}

/// The episodes of the first `k` chunks of the main chain: named after the
/// session alone when there is one chunk, else numbered from 1.
pub open spec fn main_episodes(prefix: Seq<char>, xs: Seq<Seq<Seq<char>>>, k: nat) -> Seq<
    (Seq<char>, Seq<char>),
>
    decreases k,
{
    if k == 0 {
        seq![]
    } else {
        let prev = main_episodes(prefix, xs, (k - 1) as nat);
        let t = chunk_text(xs, k - 1);
        let name = if xs.len() <= EXCHANGES_PER_EPISODE {
            episode_name(prefix, seq![])
        } else {
            episode_name(prefix, seq!['-'] + decimal(k))
        };
        if t.len() > 0 {
            prev.push((name, t))
        } else {
            prev
        }
    }
}

/// The first `n` characters of `s` (all of it when shorter).
pub open spec fn first_chars(s: Seq<char>, n: int) -> Seq<char> {
    if s.len() <= n {
        s
    } else {
        s.take(n)
    }
}

/// The episodes of the first `k` agents: each agent whose parts, separated
/// by blank lines, reach `MIN_TEXT_LEN` bytes, named after the session and
/// the agent's first 30 characters.
pub open spec fn side_episodes(prefix: Seq<char>, es: Seq<(Seq<char>, Seq<Seq<char>>)>, k: nat) -> Seq<
    (Seq<char>, Seq<char>),
>
    decreases k,
{
    if k == 0 {
        seq![]
    } else {
        let prev = side_episodes(prefix, es, (k - 1) as nat);
        let e = es[k - 1];
        let t = join_with(e.1, "\n\n"@);
        if e.1.len() > 0 && byte_len(t) >= MIN_TEXT_LEN {
            prev.push((episode_name(prefix, seq!['-'] + first_chars(e.0, 30)), t))
        } else {
            prev
        }
    }
}

/// (name, text) of each episode.
pub open spec fn episode_views(v: Seq<ExtractedEpisode>) -> Seq<(Seq<char>, Seq<char>)> {
    v.map_values(|e: ExtractedEpisode| (e.name@, e.text@))
}

/// The episodes of a transcript: those of the main chain, then one per
/// agent in the order of the agents' keys.
pub open spec fn transcript_episodes(
    prefix: Seq<char>,
    entries: Seq<Json>,
    es: Seq<(Seq<char>, Seq<Seq<char>>)>,
) -> Seq<(Seq<char>, Seq<char>)> {
    let xs = main_exchanges(entries);
    main_episodes(prefix, xs, chunk_count(xs.len() as int) as nat) + side_episodes(
        prefix,
        es,
        es.len(),
    )
}

/// The parts of every entry that contributes one, main chain and sidechains
/// alike, in order.
pub open spec fn session_parts(entries: Seq<Json>) -> Seq<Seq<char>>
    decreases entries.len(),
{
    if entries.len() == 0 {
        seq![]
    } else {
        let prev = session_parts(entries.drop_last());
        match entry_part(entries.last()) {
            Some(p) => prev.push(p),
            None => prev,
        }
    }
}

/// The episodes of the main chain's exchanges, in order.
fn main_chain_episodes(exchanges: &Vec<Vec<String>>, prefix: &str) -> (r: Vec<ExtractedEpisode>)
    ensures
        episode_views(r@) == main_episodes(
            prefix@,
            exchanges_view(exchanges@),
            chunk_count(exchanges@.len() as int) as nat,
        ),
{
    let ghost xv = exchanges_view(exchanges@);
    let n = exchanges.len();
    let single = n <= EXCHANGES_PER_EPISODE;
    let mut eps: Vec<ExtractedEpisode> = Vec::new();
    let mut lo: usize = 0;
    let mut k: usize = 0;
    while lo < n
        invariant
            n == exchanges@.len(),
            xv == exchanges_view(exchanges@),
            single == (n <= EXCHANGES_PER_EPISODE),
            lo <= n,
            k <= lo,
            lo < n ==> lo == k * EXCHANGES_PER_EPISODE,
            lo == n ==> k as int == chunk_count(n as int),
            episode_views(eps@) == main_episodes(prefix@, xv, k as nat),
        decreases n - lo,
    {
        let hi = if n - lo > EXCHANGES_PER_EPISODE {
            lo + EXCHANGES_PER_EPISODE
        } else {
            n
        };
        let mut flat: Vec<String> = Vec::new();
        let mut j: usize = lo;
        assert(xv.subrange(lo as int, lo as int) =~= Seq::<Seq<Seq<char>>>::empty());
        assert(crate::text::strings_view(flat@) =~= xv.subrange(lo as int, lo as int).flatten());
        while j < hi
            invariant
                lo <= j <= hi,
                hi <= n,
                n == exchanges@.len(),
                xv == exchanges_view(exchanges@),
                crate::text::strings_view(flat@) == xv.subrange(lo as int, j as int).flatten(),
            decreases hi - j,
        {
            let ex = &exchanges[j];
            let ghost base = crate::text::strings_view(flat@);
            let ghost exv = crate::text::strings_view(ex@);
            assert(xv[j as int] == exv);
            let mut m: usize = 0;
            assert(exv.take(0) =~= Seq::<Seq<char>>::empty());
            assert(base + exv.take(0) =~= base);
            while m < ex.len()
                invariant
                    m <= ex@.len(),
                    exv == crate::text::strings_view(ex@),
                    crate::text::strings_view(flat@) == base + exv.take(m as int),
                decreases ex.len() - m,
            {
                let ghost before = crate::text::strings_view(flat@);
                flat.push(ex[m].clone());
                assert(crate::text::strings_view(flat@) =~= before.push(ex@[m as int]@));
                assert(base + exv.take(m + 1) =~= (base + exv.take(m as int)).push(exv[m as int]));
                m = m + 1;
            }
            assert(exv.take(m as int) =~= exv);
            proof {
                let sub = xv.subrange(lo as int, j as int);
                assert(xv.subrange(lo as int, j + 1) =~= sub.push(xv[j as int]));
                sub.lemma_flatten_push(xv[j as int]);
            }
            j = j + 1;
        }
        let text = crate::compose::join_strings(&flat, "\n\n");
        assert(text@ == chunk_text(xv, k as int));
        if !text.as_str().is_empty() {
            let mut name = "session-".to_owned();
            name.append(prefix);
            if !single {
                name.append("-");
                proof {
                    reveal_strlit("-");
                }
                let digits = crate::time::decimal_chars((k + 1) as u64);
                let ds = string_from_chars(digits.as_slice());
                name.append(ds.as_str());
                assert(name@ =~= episode_name(prefix@, seq!['-'] + decimal((k + 1) as nat)));
            } else {
                assert(name@ =~= episode_name(prefix@, seq![]));
            }
            let ghost before = episode_views(eps@);
            eps.push(ExtractedEpisode { name, text });
            assert(episode_views(eps@) =~= before.push((name@, text@)));
        }
        proof {
            if hi == n {
                assert(k as int + 1 == chunk_count(n as int));
            }
        }
        lo = hi;
        k = k + 1;
    }
    eps
}

/// Appends the episodes of the sidechain agents, in the order of `sides`.
fn side_chain_episodes(sides: &Vec<(String, Vec<String>)>, prefix: &str, eps: &mut Vec<ExtractedEpisode>)
    ensures
        episode_views(final(eps)@) == episode_views(old(eps)@) + side_episodes(
            prefix@,
            side_views(sides@),
            sides@.len(),
        ),
{
    let ghost start = episode_views(eps@);
    let ghost sv = side_views(sides@);
    let mut i: usize = 0;
    assert(start + side_episodes(prefix@, sv, 0) =~= start);
    while i < sides.len()
        invariant
            i <= sides@.len(),
            sv == side_views(sides@),
            episode_views(eps@) == start + side_episodes(prefix@, sv, i as nat),
        decreases sides.len() - i,
    {
        let parts = &sides[i].1;
        assert(sv[i as int].1 == crate::text::strings_view(parts@));
        if parts.len() > 0 {
            let text = crate::compose::join_strings(parts, "\n\n");
            if text.as_str().len() >= MIN_TEXT_LEN {
                let agent = chars_of(sides[i].0.as_str());
                let take = if agent.len() <= 30 {
                    agent.len()
                } else {
                    30
                };
                let short = slice_chars(&agent, 0, take);
                assert(short@ == first_chars(sv[i as int].0, 30));
                let short_s = string_from_chars(short.as_slice());
                let mut name = "session-".to_owned();
                name.append(prefix);
                name.append("-");
                proof {
                    reveal_strlit("-");
                }
                name.append(short_s.as_str());
                assert(name@ =~= episode_name(prefix@, seq!['-'] + first_chars(sv[i as int].0, 30)));
                assert(text@ == join_with(sv[i as int].1, "\n\n"@));
                let ghost before = episode_views(eps@);
                eps.push(ExtractedEpisode { name, text });
                assert(episode_views(eps@) =~= before.push((name@, text@)));
                assert(start + side_episodes(prefix@, sv, (i + 1) as nat) =~= (start
                    + side_episodes(prefix@, sv, i as nat)).push((name@, text@)));
            }
        }
        i = i + 1;
    }
}

/// Extracts the episodes of a session transcript, given as its entries in
/// order. Main-chain content is grouped into exchanges (one per user turn)
/// and chunked into episodes of `EXCHANGES_PER_EPISODE` exchanges, named
/// `session-<prefix>` when there is one and `session-<prefix>-<n>`
/// otherwise; then each sidechain agent, in the order of their keys,
/// becomes an episode `session-<prefix>-<agent>` when its text is long
/// enough.
pub fn extract_episodes(entries: &Vec<Json>, session_prefix: &str) -> (r: Vec<ExtractedEpisode>)
    ensures
        exists|es: Seq<(Seq<char>, Seq<Seq<char>>)>|
            {
                &&& sorted_entries(es)
                &&& entries_map(es) == transcript_of(entries@).sides
                &&& episode_views(r@) == #[trigger] transcript_episodes(session_prefix@, entries@, es)
            },
{
    let mut exchanges: Vec<Vec<String>> = Vec::new();
    let mut current: Vec<String> = Vec::new();
    let mut sides: Vec<(String, Vec<String>)> = Vec::new();
    let mut i: usize = 0;
    assert(entries@.take(0) =~= Seq::<Json>::empty());
    assert(exchanges_view(exchanges@) =~= Seq::<Seq<Seq<char>>>::empty());
    assert(crate::text::strings_view(current@) =~= Seq::<Seq<char>>::empty());
    assert(entries_map(side_views(sides@)) =~= Map::<Seq<char>, Seq<Seq<char>>>::empty());
    while i < entries.len()
        invariant
            i <= entries@.len(),
            sorted_entries(side_views(sides@)),
            transcript_of(entries@.take(i as int)).exchanges == exchanges_view(exchanges@),
            transcript_of(entries@.take(i as int)).current == crate::text::strings_view(current@),
            transcript_of(entries@.take(i as int)).sides == entries_map(side_views(sides@)),
        decreases entries.len() - i,
    {
        assert(entries@.take(i + 1).drop_last() =~= entries@.take(i as int));
        assert(entries@.take(i + 1).last() == entries@[i as int]);
        let obj = &entries[i];
        match entry_contribution(obj) {
            Some(p) => {
                if sidechain_flag(obj) {
                    side_append(&mut sides, agent_key_of(obj), p);
                } else if crate::text::str_eq(entry_type_of(obj), "user") {
                    if current.len() > 0 {
                        let ghost before = exchanges_view(exchanges@);
                        let ghost cur = crate::text::strings_view(current@);
                        exchanges.push(current);
                        assert(exchanges_view(exchanges@) =~= before.push(cur));
                        current = Vec::new();
                    }
                    let ghost pv = p@;
                    current.push(p);
                    assert(crate::text::strings_view(current@) =~= seq![pv]);
                } else {
                    let ghost before = crate::text::strings_view(current@);
                    let ghost pv = p@;
                    current.push(p);
                    assert(crate::text::strings_view(current@) =~= before.push(pv));
                }
            },
            None => {},
        }
        i = i + 1;
    }
    assert(entries@.take(entries@.len() as int) =~= entries@);
    if current.len() > 0 {
        let ghost before = exchanges_view(exchanges@);
        let ghost cur = crate::text::strings_view(current@);
        exchanges.push(current);
        assert(exchanges_view(exchanges@) =~= before.push(cur));
    }
    let r = build_episodes(&exchanges, &sides, session_prefix);
    assert(transcript_episodes(session_prefix@, entries@, side_views(sides@)) == episode_views(r@));
    r
}

/// The episodes of the main chain, then those of the sidechains.
fn build_episodes(
    exchanges: &Vec<Vec<String>>,
    sides: &Vec<(String, Vec<String>)>,
    prefix: &str,
) -> (r: Vec<ExtractedEpisode>)
    ensures
        episode_views(r@) == main_episodes(
            prefix@,
            exchanges_view(exchanges@),
            chunk_count(exchanges@.len() as int) as nat,
        ) + side_episodes(prefix@, side_views(sides@), sides@.len()),
{
    let mut eps = main_chain_episodes(exchanges, prefix);
    side_chain_episodes(sides, prefix, &mut eps);
    eps
}

/// The text of a whole session: every contributing entry's part, main
/// chain and sidechains alike, separated by blank lines.
pub fn extract_session_text(entries: &Vec<Json>) -> (r: String)
    ensures
        r@ == join_with(session_parts(entries@), "\n\n"@),
{
    let mut parts: Vec<String> = Vec::new();
    let mut i: usize = 0;
    assert(entries@.take(0) =~= Seq::<Json>::empty());
    assert(crate::text::strings_view(parts@) =~= Seq::<Seq<char>>::empty());
    while i < entries.len()
        invariant
            i <= entries@.len(),
            session_parts(entries@.take(i as int)) == crate::text::strings_view(parts@),
        decreases entries.len() - i,
    {
        assert(entries@.take(i + 1).drop_last() =~= entries@.take(i as int));
        assert(entries@.take(i + 1).last() == entries@[i as int]);
        match entry_contribution(&entries[i]) {
            Some(p) => {
                let ghost before = crate::text::strings_view(parts@);
                let ghost pv = p@;
                parts.push(p);
                assert(crate::text::strings_view(parts@) =~= before.push(pv));
            },
            None => {},
        }
        i = i + 1;
    }
    assert(entries@.take(entries@.len() as int) =~= entries@);
    crate::compose::join_strings(&parts, "\n\n")
}

/// No session id comes before an earlier one.
pub open spec fn sessions_sorted(v: Seq<SessionInfo>) -> bool {
    forall|i: int, j: int|
        0 <= i < j < v.len() ==> !text_lt(#[trigger] v[j].session_id@, #[trigger] v[i].session_id@)
}

/// The sessions of `v` whose id is `k`, in their order in `v`.
pub open spec fn sessions_with_id(v: Seq<SessionInfo>, k: Seq<char>) -> Seq<SessionInfo>
    decreases v.len(),
{
    if v.len() == 0 {
        seq![]
    } else {
        let prev = sessions_with_id(v.drop_last(), k);
        if v.last().session_id@ == k {
            prev.push(v.last())
        } else {
            prev
        }
    }
}

proof fn lemma_with_id_concat(a: Seq<SessionInfo>, b: Seq<SessionInfo>, k: Seq<char>)
    ensures
        sessions_with_id(a + b, k) == sessions_with_id(a, k) + sessions_with_id(b, k),
    decreases b.len(),
{
    if b.len() == 0 {
        assert(a + b =~= a);
        assert(sessions_with_id(a, k) + sessions_with_id(b, k) =~= sessions_with_id(a, k));
    } else {
        lemma_with_id_concat(a, b.drop_last(), k);
        assert((a + b).drop_last() =~= a + b.drop_last());
        assert((a + b).last() == b.last());
        if b.last().session_id@ == k {
            assert(sessions_with_id(a, k) + sessions_with_id(b.drop_last(), k).push(b.last()) =~= (
            sessions_with_id(a, k) + sessions_with_id(b.drop_last(), k)).push(b.last()));
        }
    }
}

proof fn lemma_with_id_none(v: Seq<SessionInfo>, k: Seq<char>)
    requires
        forall|j: int| 0 <= j < v.len() ==> (#[trigger] v[j]).session_id@ != k,
    ensures
        sessions_with_id(v, k) == Seq::<SessionInfo>::empty(),
    decreases v.len(),
{
    if v.len() > 0 {
        assert forall|j: int| 0 <= j < v.drop_last().len() implies (#[trigger] v.drop_last()[j]).session_id@ != k by {
            assert(v.drop_last()[j] == v[j]);
        }
        lemma_with_id_none(v.drop_last(), k);
        assert(v.last() == v[v.len() - 1]);
    }
}

proof fn lemma_with_id_single(x: SessionInfo, k: Seq<char>)
    ensures
        sessions_with_id(seq![x], k) == if x.session_id@ == k {
            seq![x]
        } else {
            Seq::<SessionInfo>::empty()
        },
{
    let one = seq![x];
    assert(one.len() == 1);
    assert(one.drop_last() =~= Seq::<SessionInfo>::empty());
    assert(one.last() == x);
    assert(sessions_with_id(one.drop_last(), k) =~= Seq::<SessionInfo>::empty());
    assert(Seq::<SessionInfo>::empty().push(x) =~= one);
    if x.session_id@ == k {
        assert(sessions_with_id(one, k) == sessions_with_id(one.drop_last(), k).push(x));
    } else {
        assert(sessions_with_id(one, k) == sessions_with_id(one.drop_last(), k));
    }
}

/// The discovered sessions in order of session id (a stable insertion
/// sort): the same sessions, none before one with a smaller id, and those
/// with equal ids in their original order.
pub fn sort_sessions(sessions: Vec<SessionInfo>) -> (r: Vec<SessionInfo>)
    ensures
        sessions_sorted(r@),
        r@.to_multiset() == sessions@.to_multiset(),
        forall|k: Seq<char>| #[trigger] sessions_with_id(r@, k) == sessions_with_id(sessions@, k),
{
    broadcast use vstd::seq_lib::group_to_multiset_ensures, vstd::multiset::group_multiset_axioms;

    let ghost orig = sessions@;
    let mut rest = sessions;
    let mut out: Vec<SessionInfo> = Vec::new();
    assert(out@.to_multiset().add(rest@.to_multiset()) =~= orig.to_multiset());
    while rest.len() > 0
        invariant
            sessions_sorted(out@),
            out@.to_multiset().add(rest@.to_multiset()) == orig.to_multiset(),
            forall|k: Seq<char>|
                #[trigger] sessions_with_id(out@, k) + sessions_with_id(rest@, k) == sessions_with_id(orig, k),
        decreases rest.len(),
    {
        let ghost before_rest = rest@;
        let ghost before_out = out@;
        let item = rest.remove(0);
        let key = chars_of(item.session_id.as_str());
        let mut p: usize = 0;
        while p < out.len()
            invariant
                p <= out@.len(),
                out@ == before_out,
                sessions_sorted(out@),
                key@ == item.session_id@,
                forall|j: int| 0 <= j < p ==> !text_lt(key@, #[trigger] out@[j].session_id@),
            ensures
                p <= out@.len(),
                forall|j: int| 0 <= j < p ==> !text_lt(key@, #[trigger] out@[j].session_id@),
                p < out@.len() ==> text_lt(key@, out@[p as int].session_id@),
            decreases out.len() - p,
        {
            let other = chars_of(out[p].session_id.as_str());
            if text_less(&key, &other) {
                break;
            }
            p = p + 1;
        }
        proof {
            assert forall|i: int, j: int|
                0 <= i < j < before_out.len() + 1 implies !text_lt(
                #[trigger] before_out.insert(p as int, item)[j].session_id@,
                #[trigger] before_out.insert(p as int, item)[i].session_id@,
            ) by {
                let ns = before_out.insert(p as int, item);
                if j < p {
                    assert(ns[i] == before_out[i] && ns[j] == before_out[j]);
                } else if j == p {
                    assert(ns[i] == before_out[i]);
                } else if i == p {
                    let b = before_out[j - 1];
                    assert(ns[j] == b);
                    assert(text_lt(key@, before_out[p as int].session_id@));
                    if text_lt(b.session_id@, key@) {
                        lemma_text_lt_trans(b.session_id@, key@, before_out[p as int].session_id@);
                        if j - 1 > p {
                            assert(!text_lt(before_out[j - 1].session_id@, before_out[p as int].session_id@));
                        } else {
                            lemma_text_lt_total(key@, b.session_id@);
                        }
                    }
                } else if i < p {
                    assert(ns[i] == before_out[i] && ns[j] == before_out[j - 1]);
                } else {
                    assert(ns[i] == before_out[i - 1] && ns[j] == before_out[j - 1]);
                }
            }
        }
        out.insert(p, item);
        proof {
            assert(before_rest.remove(0) == rest@);
            assert(before_rest[0] == item);
            assert(out@ == before_out.insert(p as int, item));
            vstd::seq_lib::to_multiset_insert(before_out, p as int, item);
            vstd::seq_lib::to_multiset_remove(before_rest, 0);
            assert(out@.to_multiset() == before_out.to_multiset().insert(item));
            assert(rest@.to_multiset() == before_rest.to_multiset().remove(item));
            vstd::seq_lib::to_multiset_contains(before_rest, item);
            assert(before_rest.contains(item));
            assert(before_rest.to_multiset().contains(item));
            assert(out@.to_multiset().add(rest@.to_multiset()) =~= before_out.to_multiset().add(
                before_rest.to_multiset(),
            ));
            let bo = before_out;
            let pi = p as int;
            assert forall|j: int| pi <= j < bo.len() implies text_lt(key@, #[trigger] bo[j].session_id@) by {
                if j > pi {
                    assert(!text_lt(bo[j].session_id@, bo[pi].session_id@));
                    lemma_text_lt_total(bo[pi].session_id@, bo[j].session_id@);
                    if bo[pi].session_id@ != bo[j].session_id@ {
                        lemma_text_lt_trans(key@, bo[pi].session_id@, bo[j].session_id@);
                    }
                }
            }
            assert forall|k: Seq<char>|
                #[trigger] sessions_with_id(out@, k) + sessions_with_id(rest@, k) == sessions_with_id(orig, k) by {
                let head = bo.take(pi);
                let tail = bo.skip(pi);
                assert(bo =~= head + tail);
                assert(out@ =~= head + seq![item] + tail);
                assert(before_rest =~= seq![item] + rest@);
                lemma_with_id_concat(head, tail, k);
                lemma_with_id_concat(head + seq![item], tail, k);
                lemma_with_id_concat(head, seq![item], k);
                lemma_with_id_concat(seq![item], rest@, k);
                lemma_with_id_single(item, k);
                assert(sessions_with_id(before_out, k) + sessions_with_id(before_rest, k) == sessions_with_id(orig, k));
                if k == key@ {
                    assert forall|j: int| 0 <= j < tail.len() implies (#[trigger] tail[j]).session_id@ != k by {
                        assert(tail[j] == bo[pi + j]);
                        assert(text_lt(key@, bo[pi + j].session_id@));
                        lemma_text_lt_total(key@, key@);
                    }
                    lemma_with_id_none(tail, k);
                    assert(sessions_with_id(out@, k) + sessions_with_id(rest@, k) =~= sessions_with_id(before_out, k)
                        + sessions_with_id(before_rest, k));
                } else {
                    assert(sessions_with_id(out@, k) + sessions_with_id(rest@, k) =~= sessions_with_id(before_out, k)
                        + sessions_with_id(before_rest, k));
                }
            }
        }
    }
    assert(rest@.to_multiset() =~= vstd::multiset::Multiset::empty());
    assert(out@.to_multiset().add(rest@.to_multiset()) =~= out@.to_multiset());
    assert forall|k: Seq<char>| #[trigger] sessions_with_id(out@, k) == sessions_with_id(orig, k) by {
        assert(rest@ =~= Seq::<SessionInfo>::empty());
        assert(sessions_with_id(out@, k) + sessions_with_id(rest@, k) == sessions_with_id(orig, k));
        assert(sessions_with_id(out@, k) + sessions_with_id(rest@, k) =~= sessions_with_id(out@, k));
    }
    out
}

} // verus!

# attention_matters

A geometric memory for conversational agents, with its logic verified by Verus.

Text is split into episodes and neighborhoods of word occurrences. A query
activates the occurrences of its words. The best recalled neighborhoods are
then composed into a context for a language model: conscious memories, then
subconscious ones, then novel connections, within a token budget.

## Layout

- `src/`: the verified library. Each public function states what it returns in
  its `ensures`. Laws that relate several functions are public proof functions
  (`lemma_*`).
  - `system`, `episode`, `neighborhood`, `occurrence`: the memory and its
    indexes.
  - `query`, `batch`: activation, one query at a time or as a batch.
  - `surface`, `ranking`, `compose`: what surfaces, grouping by neighborhood,
    and context composition under a budget.
  - `feedback`, `forget`, `salient`, `recency`, `stats`: feedback on recalls,
    eviction, salient tags, recency, and overview figures.
  - `tokenizer`, `text`, `time`, `iso_order`: tokens, text primitives, and UTC
    timestamps (layout and order).
  - `sync`, `sync_dispatch`: transcript reading and session discovery.
  - `json`, `jsonrpc`, `server`, `http_server`, `llm_proxy`, `wire`: the
    tool protocol, the HTTP rules, and the chat proxy's decisions.
- `app/`: the command line, the stdio and HTTP servers, persistence, and the
  floating-point geometry (drift on S³, phase interference, scoring). The
  library is not verified for these parts.
- `tests/`: tests on concrete values, run against the compiled library.

Calls into outside crates (regex, pulldown-cmark, serde_json, uuid,
rustc-hash) and into std where vstd gives no specification go through small
trusted wrappers. Each wrapper's doc comment says what its contract claims.

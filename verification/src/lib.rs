pub mod batch;
pub mod colors;
pub mod compose;
pub mod episode;
pub mod feedback;
pub mod forget;
pub mod http_server;
pub mod ids;
pub mod iso_order;
pub mod json;
pub mod jsonrpc;
pub mod llm_proxy;
pub mod neighborhood;
pub mod occurrence;
pub mod text;
pub mod time;
pub mod tokenizer;
pub mod wire;
pub mod query;
pub mod ranking;
pub mod recency;
pub mod salient;
pub mod server;
pub mod sync;
pub mod stats;
pub mod surface;
pub mod sync_dispatch;
pub mod system;

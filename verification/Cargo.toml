[package]
name = "attention_matters"
version = "0.1.0"
edition = "2021"
publish = false

[dependencies]
regex = "1"
uuid = { version = "1", features = ["v4", "serde"] }
pulldown-cmark = { version = "0.13", default-features = false }
serde = { version = "1", features = ["derive"] }
serde_json = "1"
rustc-hash = "2"
rand = { version = "0.9", features = ["small_rng"] }
anyhow = "1"
clap = { version = "4", features = ["derive"] }
libc = "0.2"
tracing = "0.1"
tracing-subscriber = { version = "0.3", features = ["env-filter"] }
tokio = { version = "1", features = ["full"] }
axum = "0.8"
tower-http = { version = "0.6", features = ["cors"] }
tokio-util = "0.7"
reqwest = { version = "0.12", default-features = false, features = ["json", "stream", "rustls-tls"] }
eventsource-stream = "0.2"
futures-util = "0.3"
async-stream = "0.3"

[dev-dependencies]
tempfile = "3"

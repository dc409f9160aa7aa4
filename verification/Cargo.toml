[package]
name = "engine"
version = "0.1.0"
edition = "2021"
publish = false

[dependencies]
bytes = "1"
anyhow = "1"
mlua = { version = "0.9", features = ["lua54", "vendored", "serialize"] }
serde = { version = "1", features = ["derive"] }
serde_json = "1"
axum = { version = "0.7", features = ["ws"] }
tokio = { version = "1", features = ["full"] }
futures = "0.3"
tower-http = { version = "0.5", features = ["fs", "trace"] }
tracing-subscriber = "0.3"
uuid = { version = "1", features = ["v4"] }
notify = "6"
clap = { version = "4", features = ["derive"] }
rust-embed = "8"
mime_guess = "2"
webrtc = "0.11"
zstd = "0.13"

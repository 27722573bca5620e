[package]
name = "slog_extlog"
version = "0.1.0"
edition = "2021"
publish = false

[dependencies]
slog = { version = "2", features = ["nested-values"] }
slog-json = { version = "2", features = ["nested-values"] }
iobuffer = "*"
serde = { version = "1", features = ["derive"] }
serde_derive = "1"
serde_json = "1"
erased-serde = "0.3"
futures = "0.1"
tokio-core = "0.1"
tokio-timer = "0.1"
syn = { version = "2", features = ["full"] }
quote = "1"
proc-macro2 = "1"

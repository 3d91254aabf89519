[package]
name = "golf_engine"
version = "0.1.0"
edition = "2021"
publish = false

[dependencies]
rand = "0.9"
rand_chacha = "0.9"
serde = { version = "1", features = ["derive"] }
serde_json = "1"
thiserror = "2"
tokio = { version = "1", features = ["rt-multi-thread", "macros", "sync", "time", "net"] }
axum = { version = "0.8", features = ["ws"] }
futures-util = "0.3"
uuid = { version = "1", features = ["v4"] }
wasm-bindgen = "0.2"
tracing = "0.1"

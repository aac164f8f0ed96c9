[package]
name = "desktop_edits"
version = "0.1.0"
edition = "2021"
publish = false

[dependencies]
base64 = "0.22"
futures-channel = "0.3"
futures-util = "0.3"
rand = "0.9"
subtle = "2"
tokio = { version = "1", features = ["rt", "sync"] }
tracing = "0.1"
tungstenite = "0.27"

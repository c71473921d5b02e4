[package]
name = "ranked_stream"
version = "0.1.0"
edition = "2021"
publish = false

[dependencies]
fnv = "1"
fst = "0.4"
chrono = "0.4"
log = "0.4"
tokio = { version = "1", features = ["rt", "sync"] }

[package]
name = "unnest_ndjson"
version = "0.1.0"
edition = "2021"
publish = false

[dependencies]
iowrap = "=0.2.1"
memchr = "=2.8.3"

[dev-dependencies]
itertools = "=0.10.5"
serde_json = { version = "=1.0.154", features = ["preserve_order"] }

[package]
name = "axum-governor"
version = "2.1.0"
edition = "2021"
publish = false

[dependencies]
axum = "0.8"
dashmap = "6"
forwarded-header-value = "0.1"
governor = "0.10"
http = "1"
ipnet = "2"
nonzero_ext = "0.3"
pin-project-lite = "0.2"
serde_json = "1"
tokio = { version = "1", features = ["rt", "rt-multi-thread", "time", "net", "sync", "macros"] }
tower = { version = "0.5", features = ["util"] }
tracing = "0.1"

[package]
name = "yaak_grpc"
version = "0.1.0"
edition = "2021"
publish = false

[dependencies]
anyhow = "1"
dunce = "1"
log = "0.4"
prost = "*"
prost-reflect = { version = "*", features = ["serde"] }
prost-types = "*"
tokio = { version = "1", features = ["fs", "process", "sync", "rt", "macros"] }
tonic = { version = "*", features = ["transport"] }
tonic-reflection = "*"
uuid = { version = "1", features = ["v4"] }

[dev-dependencies]
serde_json = "1"

[package]
name = "metrics64"
version = "0.1.0"
edition = "2021"
publish = false

[dependencies]
twox-hash = "2"
smallvec = "1"
parking_lot = "0.12"
tracing = "0.1"
tokio = { version = "1", features = ["rt", "time", "macros"] }
tonic = "0.12"
opentelemetry-proto = { version = "0.27", default-features = false, features = ["gen-tonic", "metrics"] }
opentelemetry-semantic-conventions = "0.27"
gethostname = "0.5"
uuid = { version = "1", features = ["v4"] }

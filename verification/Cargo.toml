[package]
name = "falcon_protocol"
version = "0.1.0"
edition = "2021"
publish = false

[dependencies]
bytes = "=1.12.1"
uuid = "=1.29.1"
flate2 = { version = "=1.1.10", default-features = false, features = ["zlib-rs"] }
aes = "=0.8.4"
cfb8 = "=0.8.1"
fastnbt = "=2.6.3"
serde = { version = "=1.0.229", features = ["derive"] }
serde_json = "=1.0.154"
thiserror = "=1.0.69"
tracing = "=0.1.44"
syn = { version = "=1.0.109", features = ["full", "extra-traits"] }
quote = "=1.0.47"
proc-macro2 = "=1.0.107"
proc-macro-error = "=1.0.4"

[package]
name = "lark_server"
version = "0.1.0"
edition = "2021"
publish = false

[dependencies]
base64 = "0.22"
bytes = "1"
chrono = "0.4"
futures = "0.3"
glommio = "0.9"
hex = "0.4"
indexmap = "2"
jsonwebtoken = "9"
serde = { version = "1", features = ["derive"] }
serde_json = "1"
serde_json_canonicalizer = "0.3"
sha2 = "0.10"
thiserror = "2"
tracing = "0.1"

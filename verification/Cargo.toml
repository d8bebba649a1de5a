[package]
name = "rr"
version = "0.3.6"
edition = "2021"
publish = false

[dependencies]
anyhow = "1"
base64 = "0.22"
chrono = { version = "0.4", default-features = false, features = ["clock", "std"] }
clap = { version = "4", features = ["derive"] }
colored = "2"
crc32c = "0.6"
futures = "0.3"
hex = "0.4"
pulldown-cmark = { version = "0.12", default-features = false, features = ["html"] }
rand = "0.8"
reqwest = { version = "0.12", default-features = false, features = ["json", "rustls-tls"] }
serde = { version = "1", features = ["derive"] }
serde_json = "1"
sha2 = "0.10"
thiserror = "1"
tracing = "0.1"
uuid = { version = "1", features = ["v4"] }

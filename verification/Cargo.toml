[package]
name = "ssp"
version = "0.1.0"
edition = "2021"
publish = false

[dependencies]
axum = { version = "0.7", default-features = false, features = ["http1", "json", "query", "tokio"] }
base64 = "=0.22.1"
bincode = "=1.3.3"
blake3 = "=1.8.7"
chacha20poly1305 = "=0.10.1"
clap = { version = "4", default-features = false, features = ["std", "derive", "env", "help"] }
hex = "=0.4.3"
iroh = { version = "=1.4.1", default-features = false, features = ["tls-ring"] }
iroh-gossip = { version = "=0.101.0", default-features = false, features = ["net"] }
rand = "=0.10.3"
reqwest = { version = "0.13", default-features = false, features = ["json"] }
serde = { version = "1", features = ["derive"] }
serde_json = "=1.0.154"
serde_ubjson = "=0.2.1"
sha3 = "=0.10.9"
tokio = { version = "1", features = ["full"] }
tokio-stream = "0.1"
tokio-util = "0.7"
tracing-subscriber = { version = "0.3", default-features = false, features = ["fmt"] }

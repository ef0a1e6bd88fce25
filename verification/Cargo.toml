[package]
name = "merkle_store"
version = "0.1.0"
edition = "2021"
publish = false

[dependencies]
sha2 = "0.10"
chacha20 = "0.9"
hex = "0.4"
rand = "0.8"
bincode = "1"
serde = { version = "1", features = ["derive"] }
bytes = "1"
hyper = { version = "0.14", features = ["client", "http1", "tcp"] }
tokio = { version = "1", features = ["full"] }
warp = "0.3"
rocksdb = "0.22"
clap = { version = "4", features = ["derive"] }
requestty = "0.5"
thiserror = "1"
tracing = "0.1"
tracing-subscriber = { version = "0.3", features = ["json", "fmt"] }

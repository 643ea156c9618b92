[package]
name = "leech"
version = "0.1.0"
edition = "2021"
publish = false

[dependencies]
byteorder = "1"
sha1 = "0.10"
url = "2"
tokio = { version = "1", features = ["rt-multi-thread", "macros", "net", "io-util", "sync", "time"] }
reqwest = { version = "0.12", default-features = false }

[dev-dependencies]
serde_bencode = "0.2"

[package]
name = "krita_vcs"
version = "0.1.0"
edition = "2021"
publish = false

[dependencies]
png = "=0.18.1"
blake3 = "=1.8.7"
serde = { version = "=1.0.229", features = ["derive"] }
serde_json = "=1.0.154"
zip = { version = "=9.2.2", default-features = false, features = ["deflate"] }
roxmltree = "=0.21.2"
qbsdiff = "1"
zstd = "0.13"
bincode = "1"

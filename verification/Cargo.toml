[package]
name = "vlerv"
version = "0.1.0"
edition = "2021"
publish = false

[dependencies]
iroh-blobs = { version = "=0.103.1", default-features = false }
percent-encoding = "=2.3.2"
postcard = { version = "=1.1.3", features = ["use-std"] }
serde = { version = "=1.0.229", features = ["derive"] }
serde_json = "=1.0.154"
tokio = { version = "=1.54.1", features = ["full"] }

[dev-dependencies]
iroh-base = { version = "=1.4.1", features = ["key"] }

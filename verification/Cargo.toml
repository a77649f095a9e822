[package]
name = "redistill"
version = "1.2.5"
edition = "2021"
publish = false

[dependencies]
ahash = "0.8"
bytes = "1"
crossbeam = "0.8"
dashmap = "6"
fastrand = "2"
jemallocator = "0.5"
once_cell = "1"
subtle = "2"
tokio = { version = "1", features = ["rt-multi-thread", "macros", "net", "io-util", "time", "signal", "sync"] }
tokio-rustls = { version = "0.26", default-features = false, features = ["ring", "tls12"] }

[package]
name = "raiden_search"
version = "0.1.0"
edition = "2021"
publish = false

[dependencies]
byteorder = "1"
fst = { version = "0.4", features = ["levenshtein"] }
memmap2 = "0.5"
clap = "2"
futures = "0.3"
hyper = { version = "0.14", features = ["server", "http1", "tcp", "stream"] }
serde = { version = "1", features = ["derive"] }
serde_json = "1"
tokio = { version = "1", features = ["rt-multi-thread", "macros"] }

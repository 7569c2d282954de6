[package]
name = "everlasting"
version = "0.1.0"
edition = "2021"
publish = false

[dependencies]
bytes = "1"
rand = "0.8"
rust-crypto = "0.2"
url = "2"
clap = { version = "4", features = ["derive"] }
color-eyre = "0.6"
reqwest = { version = "0.11", default-features = false }
thiserror = "1"
tokio = { version = "1", features = ["rt-multi-thread", "macros", "net", "io-util", "time", "sync", "fs"] }
tracing = "0.1"
tracing-subscriber = { version = "0.3", features = ["env-filter"] }

[dev-dependencies]
bendy = "0.3"
hex = "0.4"

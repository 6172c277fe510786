[package]
name = "jolt_core"
version = "0.1.0"
edition = "2021"
publish = false

[dependencies]
rand = "0.8"
dirs = "*"
eyre = "*"
indicatif = "*"
reqwest = { version = "*", default-features = false }
tokio = { version = "1", features = ["rt-multi-thread", "time"] }
target-lexicon = "*"

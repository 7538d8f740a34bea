[package]
name = "latch_rs"
version = "0.1.0"
edition = "2021"
publish = false

[dependencies]
slotmap = "=1.1.1"
indexmap = { version = "=2.14.2", features = ["serde"] }
toml = "=1.1.8"
serde = { version = "=1.0.229", features = ["derive"] }
codespan-reporting = "=0.13.1"

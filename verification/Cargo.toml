[package]
name = "juneau"
version = "0.1.0"
edition = "2021"
publish = false

[dependencies]
csv = "1"
time = "0.3"
clap = { version = "4", features = ["derive"] }
mimalloc = "0.1"
augurs = { version = "*", features = ["prophet", "prophet-wasmstan"] }

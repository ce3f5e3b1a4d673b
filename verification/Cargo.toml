[package]
name = "bundler_core"
version = "0.1.0"
edition = "2021"
publish = false

[dependencies]
anyhow = "*"
dashmap = "*"
nodejs-resolver = "*"
petgraph = "*"
sugar_path = "*"
tokio = { version = "*", features = ["rt", "rt-multi-thread", "sync", "fs", "macros"] }
tracing = "*"

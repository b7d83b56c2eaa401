[package]
name = "irondb"
version = "0.1.0"
edition = "2021"
publish = false

[dependencies]
im = "*"
config = "*"
tokio = { version = "*", features = ["rt-multi-thread", "sync", "macros"] }

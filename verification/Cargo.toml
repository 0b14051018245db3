[package]
name = "ntree-rs"
version = "0.1.0"
edition = "2021"
publish = false

[dependencies]
async-recursion = "1"
futures = "0.3"
quote = "1"
serde = "1"
syn = "2"

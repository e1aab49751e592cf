[package]
name = "pull_logs"
version = "0.1.0"
edition = "2021"
publish = false

[dependencies]
uuid = "1"
async-trait = "0.1"

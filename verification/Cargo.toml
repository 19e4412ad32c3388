[package]
name = "server"
version = "0.1.0"
edition = "2021"
publish = false

[dependencies]
http = "1"
httpdate = "1"
tokio = { version = "1", features = ["rt-multi-thread", "sync", "macros"] }
async-trait = "0.1"

[package]
name = "kv_store"
version = "0.1.0"
edition = "2021"
publish = false

[dependencies]
async-mutex = "*"
async-stream = "*"
async-trait = "*"
futures-util = "*"
smol = "*"
sqlx = { version = "*", default-features = false, features = ["sqlite", "runtime-async-std"] }

[package]
name = "stripe_sender"
version = "0.1.0"
edition = "2021"
publish = false

[dependencies]
bytes = "1"
thiserror = "1"
async-trait = "0.1"
async_async_io = "*"
tokio = { version = "1", default-features = false, features = ["io-util", "rt"] }

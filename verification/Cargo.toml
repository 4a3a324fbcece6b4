[package]
name = "streamunordered"
version = "0.5.4"
edition = "2021"
publish = false

[dependencies]
futures-core = "0.3"
futures-util = { version = "0.3", default-features = false, features = ["std"] }
slab = "0.4"

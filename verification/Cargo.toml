[package]
name = "arithmetics"
version = "0.1.0"
edition = "2021"
publish = false

[dependencies]
malachite = "*"
rand = "0.9"
rand_chacha = "0.9"
serde = { version = "1", features = ["derive"] }
serde_json = "1"
snafu = "0.8"
tokio = { version = "1", features = ["rt", "rt-multi-thread", "sync", "macros"] }
rayon = "1"
tracing = "0.1"

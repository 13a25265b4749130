[package]
name = "poker_engine"
version = "0.1.0"
edition = "2021"
publish = false

[dependencies]
rand = "=0.10.3"
rs_poker = { version = "=5.0.0", default-features = false }
serde = { version = "=1.0.229", features = ["derive"] }

[package]
name = "chess_engine"
version = "0.1.0"
edition = "2021"
publish = false

[dependencies]
bitintr = "0.3"
hashbrown = "0.14"
mimalloc = { version = "0.1", default-features = false }
rand = "0.8"
tokio = { version = "1", features = ["io-util", "macros", "net", "rt-multi-thread"] }

[package]
name = "orderbook"
version = "0.1.0"
edition = "2021"
publish = false

[dependencies]
anyhow = "1"
chrono = { version = "0.4", features = ["serde"] }
csv = "1"
futures = "0.3"
indexmap = "2"
indicatif = "0.17"
log = "0.4"
ordered-float = "4"
pretty_env_logger = "0.5"
rand = "0.8"
rand_distr = "0.4"
serde = { version = "1", features = ["derive"] }
tokio = { version = "1", features = ["macros", "rt-multi-thread", "sync"] }
uuid = { version = "1", features = ["serde", "v4"] }

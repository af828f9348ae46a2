[package]
name = "triplox"
version = "0.1.0"
edition = "2021"
publish = false

[dependencies]
anyhow = "1"
bincode = "1"
bytes = "1"
chrono = "0.4"
itertools = "*"
rdkafka = "*"
regex = "1"
serde = { version = "1", features = ["derive"] }
slatedb = "*"
tokio = { version = "1", features = ["full"] }
tokio-util = "0.7"
toml = "*"
tracing = "0.1"
tracing-subscriber = { version = "0.3", features = ["env-filter"] }

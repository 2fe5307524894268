[package]
name = "matchmaker"
version = "0.1.0"
edition = "2021"
publish = false

[dependencies]
anyhow = "1"
futures-util = "0.3"
rand = "0.8"
regex = "1"
sqlx = { version = "0.7", default-features = false, features = ["runtime-tokio", "postgres"] }
tokio = { version = "1", features = ["rt-multi-thread", "macros", "sync"] }
tracing = "0.1"
tracing-subscriber = "0.3"
twilight-gateway = "0.15"
twilight-http = "0.15"
twilight-interactions = "0.15"
twilight-model = "0.15"
twilight-util = { version = "0.15", features = ["builder"] }

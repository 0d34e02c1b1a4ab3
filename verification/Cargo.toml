[package]
name = "syncr"
version = "0.1.0"
edition = "2021"
publish = false

[dependencies]
md4 = "*"
tokio = { version = "*", features = ["rt-multi-thread", "net", "io-util", "sync", "macros", "time"] }
serde = { version = "*", features = ["derive"] }
rmp-serde = "*"
bytes = "*"
clap = { version = "*", features = ["derive"] }
thiserror = "*"
tracing = "*"
tracing-subscriber = "*"

[package]
name = "st_tcp_server"
version = "0.1.0"
edition = "2021"
publish = false

[dependencies]
anyhow = "1"
clap = { version = "4", features = ["derive"] }
futures = "0.3"
tokio = { version = "1", features = ["net", "io-util", "rt", "macros", "time"] }
tokio-stream = { version = "0.1", features = ["net"] }

[package]
name = "tcp_localhost"
version = "0.1.0"
edition = "2021"
publish = false

[dependencies]
itertools = "*"
anyhow = "*"
clap = { version = "*", features = ["derive"] }
live-server = "*"
native-dialog = "*"
notify = "*"
tokio = { version = "*", features = ["macros", "rt-multi-thread"] }

[package]
name = "zoxide"
version = "0.1.0"
edition = "2021"
publish = false

[dependencies]
anyhow = "1"
bincode = "1.3"
clap = { version = "4", features = ["derive"] }
dirs-next = "2"
glob = "0.3"
serde = { version = "1", features = ["derive"] }

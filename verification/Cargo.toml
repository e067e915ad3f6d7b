[package]
name = "kvstore"
version = "0.1.0"
edition = "2021"
publish = false

[dependencies]
bincode = "1.3"
serde = { version = "1", features = ["derive"] }
clap = { version = "4", features = ["derive"] }
hdrhistogram = "7"
rand = "0.8"
sha2 = "0.10"

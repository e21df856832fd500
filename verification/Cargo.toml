[package]
name = "kvs"
version = "0.1.0"
edition = "2021"
publish = false

[dependencies]
bincode = "1.3"
serde = { version = "1", features = ["derive"] }
memmap = "0.7"
failure = "0.1"
failure_derive = "0.1"
structopt = "0.3"

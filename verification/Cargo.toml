[package]
name = "ruma_zk"
version = "0.1.0"
edition = "2021"
publish = false

[dependencies]
p3-baby-bear = "*"
p3-field = "*"
tiny-keccak = { version = "*", features = ["keccak"] }
rand = "0.8"
sha2 = "*"
ruma-lean = "*"
serde = { version = "1", features = ["derive"] }
serde_json = "1"
ciborium = "*"
bincode = "1"
hex = "*"
clap = { version = "4", features = ["derive"] }
web-time = "*"

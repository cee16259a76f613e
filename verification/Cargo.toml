[package]
name = "decree"
version = "0.1.0"
edition = "2021"
publish = false

[dependencies]
merlin = "=3.0.0"
tiny-keccak = { version = "=2.0.2", features = ["tuple_hash"] }
bcs = "=0.1.6"
serde = "1"

[dev-dependencies]
num-bigint = { version = "=0.4.8", features = ["rand", "serde"] }
rand = "=0.8.8"

[package]
name = "deepfinder"
version = "0.1.0"
edition = "2021"
publish = false

[dependencies]
blake2 = "0.10"
clap = "4"
csv = "1"
digest = "0.10"
hex = "0.4"
md-5 = "0.10"
num_cpus = "1"
serde = { version = "1", features = ["derive"] }
serde_json = "1"
serde-xml-rs = "0.6"
sha1 = "0.10"
sha2 = "0.10"
sha3 = "0.10"
whirlpool = "0.10"

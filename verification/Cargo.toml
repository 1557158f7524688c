[package]
name = "rs-nanogpt"
version = "0.1.0"
edition = "2021"
publish = false

[dependencies]
arrow-array = "*"
arrow-schema = "*"
base64 = "0.22"
candle-core = "*"
candle-nn = "*"
clap = { version = "4", features = ["derive"] }
fancy-regex = "*"
half = "2"
parquet = "*"
rand = "0.10"
rand_chacha = "0.10"
rayon = "1"
serde = { version = "1", features = ["derive"] }
serde_json = "1"
ureq = "3"

[dev-dependencies]
tempfile = "3"

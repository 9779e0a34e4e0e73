[package]
name = "hifi_vclust"
version = "0.1.0"
edition = "2021"
publish = false

[dependencies]
chrono = "=0.4.45"
clap = { version = "=4.6.7", features = ["derive"] }
crossbeam-channel = "=0.5.17"
itertools = "=0.15.0"
log = "=0.4.34"
logaddexp = "=0.1.4"
rust-htslib = { version = "=0.43.1", default-features = false }

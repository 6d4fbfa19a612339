[package]
name = "grovedb"
version = "0.1.0"
edition = "2021"
publish = false

[dependencies]
blake3 = { version = "1", default-features = false, features = ["pure"] }
num_cpus = "1"
rocksdb = { version = "*", default-features = false }
thiserror = "1"

[package]
name = "dedupe_estimator"
version = "0.1.0"
edition = "2021"
publish = false

[dependencies]
gearhash = "=0.1.4"
lz4_flex = "=0.11.6"
xxhash-rust = { version = "=0.8.19", features = ["xxh3"] }
anyhow = "=1.0.104"
indicatif = { version = "=0.17.11", features = ["rayon"] }
png = "=0.17.16"
pyo3 = { version = "=0.30.1", features = ["abi3-py39"] }
rayon = "=1.12.0"
parquet = { version = "=60.0.0", default-features = false, features = ["arrow"] }
arrow-array = "=60.0.0"

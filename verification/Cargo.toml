[package]
name = "bm25f"
version = "0.1.0"
edition = "2021"
publish = false

[dependencies]
anyhow = "1"
bincode = "1"
crossbeam-channel = "0.5"
fst = "0.4"
indicatif = "0.17"
memmap = "0.7"
num_cpus = "1"
rand = "0.8"
random_word = { version = "0.4", features = ["en"] }
serde = { version = "1", features = ["derive"] }
serde_json = "1"

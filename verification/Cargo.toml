[package]
name = "scry_index"
version = "0.1.1"
edition = "2021"
publish = false

[dependencies]
crossbeam-epoch = "0.9"
crossbeam-skiplist = "0.1"
serde = { version = "1", features = ["derive"] }

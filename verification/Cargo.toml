[package]
name = "range_crdt"
version = "0.1.0"
edition = "2021"
publish = false

[dependencies]
smallvec = "1"
humansize = "1"

[dev-dependencies]
rand = { version = "0.8", features = ["small_rng"] }
ropey = "1"

[package]
name = "mirage_index"
version = "0.1.0"
edition = "2021"
publish = false

[dependencies]
atomic_refcell = "*"
fs-err = "*"
itertools = "*"
log = "*"
parking_lot = "*"
rand = "*"
rayon = "*"
serde = { version = "1", features = ["derive"] }
serde_json = "1"

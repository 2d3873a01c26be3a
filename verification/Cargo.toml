[package]
name = "typed_store"
version = "0.1.0"
edition = "2021"
publish = false

[dependencies]
bytes = "1"
rocksdb = { version = "*", default-features = false, features = ["bindgen-runtime"] }

[package]
name = "abcd"
version = "0.1.0"
edition = "2021"
publish = false

[dependencies]
byteorder = "1"
sha2 = "0.9"
anyhow = "1"
cxx = "1"
rocksdb = "*"
tonic = "*"
tokio = { version = "1", features = ["rt-multi-thread"] }

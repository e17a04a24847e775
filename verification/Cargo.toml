[package]
name = "creedmoor"
version = "0.1.0"
edition = "2021"
publish = false

[dependencies]
get-size = "0.1"
sled = { version = "0.34", features = ["compression"] }
thiserror = "1"

[package]
name = "vfs"
version = "0.1.0"
edition = "2021"
publish = false

[dependencies]
typed-path = "*"
thiserror = "*"
reqwest = { version = "*", default-features = false, features = ["blocking"] }

[package]
name = "fs_apfs"
version = "0.1.0"
edition = "2021"
publish = false

[dependencies]
chrono = { version = "0.4", default-features = false }
sha2 = { version = "0.10", default-features = false }
thiserror = "2"
time = { version = "0.3", default-features = false }
unicode-normalization = { version = "0.1", default-features = false }

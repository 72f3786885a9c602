[package]
name = "kaspa_atan"
version = "0.1.0"
edition = "2021"
publish = false

[dependencies]
kaspa-hashes = "*"
kaspa-seq-commit = "*"
kaspa-consensus-core = { version = "*", default-features = false }
thiserror = "*"

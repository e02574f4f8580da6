[package]
name = "cluster_digest"
version = "0.1.0"
edition = "2021"
publish = false

[dependencies]
sha2 = "0.10"

[dev-dependencies]
base64 = "0.22"

[package]
name = "neon_shmem"
version = "0.1.0"
edition = "2021"
publish = false

[dependencies]
rustc-hash = "2.1.1"

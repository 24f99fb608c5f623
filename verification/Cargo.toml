[package]
name = "evt3-core"
version = "0.1.0"
edition = "2021"
publish = false

[dependencies]
anyhow = "1"
clap = { version = "4", features = ["derive"] }
indicatif = "0.17"
numpy = "0.20"
pyo3 = "0.20"
thiserror = "1"

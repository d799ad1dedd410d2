[package]
name = "oslom-core"
version = "0.1.0"
edition = "2021"
publish = false

[dependencies]
rand = "0.8"
rayon = "1.7"
thiserror = "1.0"
serde = { version = "1.0", features = ["derive"] }
pyo3 = "0.20"

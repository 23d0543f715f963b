[package]
name = "salamander"
version = "0.1.0"
edition = "2021"
publish = false

[dependencies]
bincode = "1.3"
crc32c = "0.6"
serde = { version = "1", features = ["derive"] }
serde_json = "1"
thiserror = "1"
pyo3 = "*"

[dev-dependencies]
tempfile = "3"

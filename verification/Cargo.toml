[package]
name = "furas"
version = "0.1.0"
edition = "2021"
publish = false

[dependencies]
scraper = { version = "*", features = ["deterministic"] }
ego-tree = "*"
itertools = "*"
regex = "*"
strsim = "*"
serde = { version = "*", features = ["derive"] }
serde_json = "*"
pyo3 = "*"

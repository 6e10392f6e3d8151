[package]
name = "anchr_core"
version = "0.1.0"
edition = "2021"
publish = false

[dependencies]
globset = "*"
strsim = "*"
line-index = "*"
regex = "*"
camino = "*"
thiserror = "*"
toml = "*"
serde = { version = "*", features = ["derive"] }
ignore = "*"
dunce = "*"

[dev-dependencies]
tempfile = "*"

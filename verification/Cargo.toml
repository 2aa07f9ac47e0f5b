[package]
name = "construct_core"
version = "0.1.0"
edition = "2021"
publish = false

[dependencies]
nbtx = "3"
serde = { version = "1", features = ["derive"] }
serde_json = "1"
toml = "*"
directories = "*"
tempfile = "3"
thiserror = "*"
ureq = "3"
zip = "*"

[package]
name = "zkvm_exec"
version = "0.1.0"
edition = "2021"
publish = false

[dependencies]
sha2 = "*"
serde = { version = "*", features = ["derive"] }
serde_json = "*"
tempfile = "*"
anyhow = "*"
hex = "*"

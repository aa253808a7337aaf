[package]
name = "jeff"
version = "0.1.0"
edition = "2021"
publish = false

[dependencies]
anyhow = "1"
log = "0.4"
object = { version = "0.37", features = ["write"] }

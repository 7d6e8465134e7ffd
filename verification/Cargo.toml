[package]
name = "rhymomatic"
version = "0.1.0"
edition = "2021"
publish = false

[dependencies]
anyhow = "=1.0.104"
paw = "=1.0.0"
structopt = { version = "=0.3.26", features = ["paw"] }

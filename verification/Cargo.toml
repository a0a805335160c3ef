[package]
name = "nested_set"
version = "0.1.0"
edition = "2021"
publish = false

[dependencies]
csv = "1"
serde = { version = "1", features = ["derive"] }
serde_json = "1"
structopt = "0.3"
strum = { version = "0.24", features = ["derive"] }
thiserror = "1"

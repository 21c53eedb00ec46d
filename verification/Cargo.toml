[package]
name = "fire"
version = "0.1.0"
edition = "2021"
publish = false

[dependencies]
clap = { version = "*", features = ["derive"] }
log = "*"
reqwest = { version = "*", default-features = false, features = ["blocking"] }
termcolor = "*"

[dev-dependencies]
serde_json = "*"

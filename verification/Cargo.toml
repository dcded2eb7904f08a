[package]
name = "risc"
version = "0.1.0"
edition = "2021"
publish = false

[dependencies]
regex-lite = "*"
tinyjson = "*"
toml = "*"
serde = { version = "1", features = ["derive"] }
clap = { version = "4", features = ["derive"] }
reedline = "*"
nu-ansi-term = "*"
ureq = { version = "2", default-features = false }

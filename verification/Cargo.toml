[package]
name = "ggpklib"
version = "0.1.0"
edition = "2021"
publish = false

[dependencies]
murmur2 = "*"
oozle = "*"
serde = { version = "*", features = ["derive"] }
serde_json = "*"
reqwest = { version = "*", default-features = false, features = ["blocking"] }
clap = { version = "*", features = ["derive"] }
csv = "*"
anyhow = "*"

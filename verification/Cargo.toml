[package]
name = "sebas"
version = "0.1.0"
edition = "2021"
publish = false

[dependencies]
sha2 = "*"
chrono = "*"
serde = { version = "*", features = ["derive"] }
serde_yaml = "*"
clap = { version = "*", features = ["derive"] }
termion = "*"
colored = "*"
atty = "*"
anyhow = "*"
home = "*"

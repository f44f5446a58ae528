[package]
name = "friggen"
version = "0.1.0"
edition = "2021"
publish = false

[dependencies]
clap = { version = "*", features = ["derive", "env"] }
colored = "*"
dotenv = "*"
env_logger = "*"
log = "*"
shellexpand = "*"
tempfile = "*"

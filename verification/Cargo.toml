[package]
name = "x2trace"
version = "0.1.0"
edition = "2021"
publish = false

[dependencies]
anyhow = "1"
cpp_demangle = "*"
env_logger = "*"
log = "0.4"
rsprocmaps = "*"
serde = { version = "1", features = ["derive"] }
serde_json = "1"
structopt = "0.3"

[package]
name = "fastqc_report"
version = "0.1.0"
edition = "2021"
publish = false

[dependencies]
askama = "*"
chrono = "*"
clap = { version = "*", features = ["derive"] }
csv = "*"
serde = { version = "1", features = ["derive"] }
serde_json = "1"
thiserror = "*"

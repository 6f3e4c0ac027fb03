[package]
name = "hibppwdflt"
version = "0.1.0"
edition = "2021"
publish = false

[dependencies]
backoff = { version = "0.4", features = ["tokio"] }
chrono = "0.4"
clap = { version = "4", features = ["derive"] }
futures = "0.3"
hex = "0.4"
indicatif = "0.17"
md4 = "0.10"
reqwest = { version = "0.11", default-features = false, features = ["rustls-tls"] }
tokio = { version = "1", features = ["macros", "rt-multi-thread"] }
winreg = "0.10"

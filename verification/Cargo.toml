[package]
name = "downfast"
version = "0.1.0"
edition = "2021"
publish = false

[dependencies]
url = "=2.5.8"
reqwest = { version = "=0.11.27", default-features = false, features = ["rustls-tls"] }
tokio = { version = "=1.54.1", features = ["rt-multi-thread", "macros"] }
futures = "=0.3.34"
indicatif = "=0.17.11"
clap = "=2.34.0"

[package]
name = "bgmrank"
version = "0.1.0"
edition = "2021"
publish = false

[dependencies]
getopts = "*"
kuchiki = "0.8"
reqwest = { version = "0.11", default-features = false, features = ["blocking", "rustls-tls"] }

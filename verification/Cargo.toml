[package]
name = "synonym_search"
version = "0.1.0"
edition = "2021"
publish = false

[dependencies]
actix = "0.13"
reqwest = { version = "0.11", default-features = false, features = ["blocking", "rustls-tls"] }
std-semaphore = "0.1"

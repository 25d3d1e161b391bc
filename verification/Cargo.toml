[package]
name = "data_query"
version = "0.1.0"
edition = "2021"
publish = false

[dependencies]
calamine = "*"
chrono = "*"
encoding_rs = "*"
serde = { version = "*", features = ["derive"] }
serde_json = "*"
dirs = "*"

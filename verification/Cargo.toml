[package]
name = "money_bae"
version = "0.1.0"
edition = "2021"
publish = false

[dependencies]
bigdecimal = "*"
chrono = "*"
confy = "*"
serde = { version = "*", features = ["derive"] }

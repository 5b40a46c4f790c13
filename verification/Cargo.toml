[package]
name = "apiforma"
version = "0.1.0"
edition = "2021"
publish = false

[dependencies]
rand = "0.8"
tokio = { version = "1", features = ["full"] }
hyper = { version = "1", features = ["full"] }
http-body-util = "0.1"
bytes = "1"
form_urlencoded = "1"
tungstenite = "*"

[package]
name = "pick"
version = "0.1.0"
edition = "2021"
publish = false

[dependencies]
serde = { version = "=1.0.229", features = ["derive"] }
serde_json = "=1.0.154"
pulldown-cmark = { version = "=0.13.6", default-features = false, features = ["html"] }
similar = { version = "3", features = ["inline"] }
jiff = "=0.2.39"
dirs = "=7.0.0"

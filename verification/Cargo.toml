[package]
name = "http_server"
version = "0.1.0"
edition = "2021"
publish = false

[dependencies]
chrono = "0.4"
mime_guess = "2"
mio = { version = "1", features = ["os-poll", "net"] }
serde_json = "1"
uuid = { version = "1", features = ["v4"] }

[package]
name = "bruin"
version = "0.1.0"
edition = "2021"
publish = false

[dependencies]
chrono = "=0.4.45"
hex = "=0.4.3"
hmac = "=0.13.0"
pulldown-cmark = "=0.13.4"
sha2 = "=0.11.0"
uuid = { version = "=1.27.0", features = ["v4"] }

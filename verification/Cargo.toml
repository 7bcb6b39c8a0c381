[package]
name = "epubthing"
version = "0.1.0"
edition = "2021"
publish = false

[dependencies]
quick-xml = { version = "=0.37.5", features = ["serialize"] }
zip = { version = "=2.6.1", default-features = false, features = ["deflate"] }
mdka = "2"
chrono = "=0.4.45"
serde = { version = "=1.0.229", features = ["derive"] }
serde_json = "=1.0.154"

[package]
name = "drm-beatsaver-cacher"
version = "0.1.0"
edition = "2021"
publish = false

[dependencies]
axum = "*"
chrono = "0.4"
config = { version = "*", default-features = false, features = ["json"] }
env_logger = "*"
flate2 = "1"
futures = "0.3"
log = "0.4"
prost = "*"
serde = { version = "1", features = ["derive"] }
serde_json = "1"
tokio = { version = "1", features = ["full"] }
tokio-tungstenite = { version = "*", features = ["rustls-tls-webpki-roots"] }
tower-http = { version = "*", features = ["fs", "trace"] }

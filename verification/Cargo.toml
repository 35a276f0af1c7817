[package]
name = "swenc_proxy"
version = "0.1.0"
edition = "2021"
publish = false

[dependencies]
aes-gcm = "=0.10.3"
argon2 = "=0.5.3"
sha256 = { version = "=1.6.0", default-features = false }
regex = "=1.13.1"
http = "=1.5.0"
serde = { version = "=1.0.229", features = ["derive"] }
tokio = { version = "=1.54.1", features = ["rt-multi-thread", "macros", "net", "io-util", "sync"] }
futures-util = { version = "=0.3.34", features = ["sink"] }
axum = "=0.7.9"
reqwest = { version = "=0.12.28", default-features = false, features = ["rustls-tls"] }
tower-http = { version = "=0.5.2", features = ["fs"] }

[dev-dependencies]
rmp-serde = "=1.3.1"

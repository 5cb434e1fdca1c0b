[package]
name = "gallery_core"
version = "0.1.0"
edition = "2021"
publish = false

[dependencies]
natord = "=1.0.9"
path-clean = "=1.0.1"
pathdiff = "=0.2.3"
rand = "=0.8.8"
serde_json = "=1.0.154"
urlencoding = "=2.1.3"
mime_guess = "=2.0.5"
anyhow = "=1.0.104"
serde = { version = "=1.0.229", features = ["derive"] }
tokio = { version = "=1.54.1", features = ["rt-multi-thread", "macros", "fs", "sync"] }
tokio-util = { version = "=0.7.20", features = ["io"] }
futures = "=0.3.34"
axum = "=0.7.9"
axum-server = { version = "=0.7.3", features = ["tls-rustls-no-provider"] }
# axum-server is built without a crypto provider; the server installs ring's.
rustls = { version = "=0.23.46", default-features = false, features = ["ring", "std", "tls12"] }
tower-http = { version = "=0.5.2", features = ["cors"] }
sqlx = { version = "=0.7.4", default-features = false, features = ["runtime-tokio", "sqlite"] }
image = { version = "=0.24.9", default-features = false, features = ["jpeg", "png", "gif", "webp", "bmp"] }
walkdir = "=2.5.0"

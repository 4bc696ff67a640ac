[package]
name = "breezy-registry"
version = "0.1.0"
edition = "2021"
publish = false

[dependencies]
anyhow = "=1.0.104"
argon2 = { version = "=0.5.3", features = ["std"] }
async-trait = "=0.1.92"
axum = "=0.8.9"
base64 = "=0.22.1"
diesel = { version = "=2.3.14", features = ["sqlite", "r2d2"] }
fs2 = "=0.4.3"
futures-util = "=0.3.34"
hex = "=0.4.3"
libsqlite3-sys = { version = "=0.38.2", features = ["bundled"] }
mime_guess = "=2.0.5"
object_store = { version = "=0.13.2", features = ["aws"] }
regex = "=1.13.1"
rust-embed = { version = "=8.13.0", features = ["interpolate-folder-path"] }
serde = { version = "=1.0.229", features = ["derive"] }
serde_json = "=1.0.154"
sha2 = "=0.11.1"
tokio = { version = "=1.54.1", features = ["full"] }
tokio-util = { version = "=0.7.20", features = ["io"] }
toml = "=0.9.12"
tracing = "=0.1.44"
tracing-subscriber = { version = "=0.3.23", features = ["env-filter"] }
uuid = { version = "=1.29.0", features = ["v4"] }

[package]
name = "s2_tiler"
version = "0.1.0"
edition = "2021"
publish = false

[dependencies]
anyhow = "1"
async-tiff = "=0.3.0"
async-trait = "0.1"
axum = "0.8"
bytes = "1"
clap = { version = "4", features = ["derive"] }
dashmap = "=6.2.1"
duckdb = "=1.20000.1"
futures = "0.3"
image = { version = "=0.25.10", default-features = false, features = ["png", "jpeg", "webp"] }
indicatif = "0.17"
ndarray = "=0.16.1"
object_store = { version = "=0.13.2", features = ["aws", "http"] }
proj4rs = "0.1"
reqwest = { version = "0.12", default-features = false, features = ["json", "rustls-tls"] }
serde = { version = "1", features = ["derive"] }
serde_json = "1"
serde_yaml = "0.9"
tokio = { version = "1", features = ["full"] }
tower-http = { version = "0.6", features = ["cors"] }
tracing = "0.1"
tracing-subscriber = { version = "0.3", features = ["env-filter"] }
url = "=2.5.8"

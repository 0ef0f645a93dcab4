[package]
name = "acme-dns-rust"
version = "1.2.3"
edition = "2021"
publish = false

[dependencies]
async-trait = "0.1"
axum = { version = "0.7", features = ["macros"] }
axum-server = { version = "0.8", default-features = false, features = ["tls-rustls-no-provider"] }
bcrypt = "0.15"
chrono = "0.4"
clap = { version = "4", features = ["derive"] }
dashmap = "6"
hickory-resolver = { version = "0.24", default-features = false, features = ["tokio-runtime"] }
hickory-server = { version = "0.26", default-features = false }
hyper-util = { version = "0.1", features = ["tokio", "server-auto", "service", "http1", "http2"] }
ipnetwork = "0.20"
metrics = "0.24"
metrics-exporter-prometheus = { version = "0.16", default-features = false }
moka = { version = "0.12", features = ["future"] }
rand = "0.8"
reqwest = { version = "0.12", default-features = false, features = ["json", "rustls-tls"] }
rpassword = "7"
rustls-acme = { version = "0.11", default-features = false, features = ["tokio", "ring", "tls12"] }
serde = { version = "1", features = ["derive"] }
serde_json = "1"
sqlx-core = { version = "0.8", default-features = false, features = ["_rt-tokio"] }
sqlx-postgres = { version = "0.8", default-features = false }
sqlx-sqlite = { version = "0.8", default-features = false, features = ["bundled"] }
tokio = { version = "1", features = ["full"] }
tokio-stream = { version = "0.1", features = ["net"] }
toml = "0.8"
tower-http = { version = "0.5", features = ["cors", "set-header"] }
tracing = "0.1"
tracing-subscriber = "0.3"
uuid = { version = "1", features = ["v4"] }

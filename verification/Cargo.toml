[package]
name = "gaia_gmn"
version = "0.1.0"
edition = "2021"
publish = false

[dependencies]
anyhow = "=1.0.104"
axum = "=0.8.9"
byteorder = "=1.5.0"
chrono = "=0.4.45"
ctrlc = "=3.5.2"
if-addrs = "=0.13.4"
image = { version = "=0.25.10", default-features = false, features = ["jpeg"] }
mdns-sd = "=0.13.11"
reqwest = { version = "=0.12.28", default-features = false, features = ["json"] }
rusqlite = { version = "=0.32.1", features = ["bundled"] }
serde = { version = "=1.0.229", features = ["derive"] }
tokio = { version = "=1.54.1", features = ["full"] }
tower-http = { version = "=0.6.11", features = ["cors", "fs"] }
tracing = "=0.1.44"
tracing-subscriber = { version = "=0.3.23", features = ["env-filter"] }

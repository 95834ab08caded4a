[package]
name = "dns_balancer"
version = "0.1.0"
edition = "2021"
publish = false

[dependencies]
cloudflare = "=0.14.0"
env_logger = "=0.11.11"
lazy_static = "=1.5.1"
log = "*"
oping = "=0.4.0"
prometheus = "=0.14.0"
reqwest = "=0.13.5"
serde = { version = "*", features = ["derive"] }
serde_json = "*"
tokio = { version = "=1.53.2", features = ["full"] }
warp = { version = "=0.4.3", features = ["server"] }

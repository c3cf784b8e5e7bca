[package]
name = "sqm-autorate"
version = "0.1.0"
edition = "2021"
publish = false

[dependencies]
anyhow = "=1.0.104"
env_logger = "=0.11.11"
fastrand = "=2.5.0"
icmp-socket = "=0.2.0"
log = "=0.4.35"
rust-uci = "=0.1.5"
rustix = { version = "=1.1.6", features = ["time", "thread"] }
thiserror = "=2.0.21"

[lints.rust]
unexpected_cfgs = { level = "warn", check-cfg = ["cfg(uci)"] }

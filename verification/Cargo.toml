[package]
name = "einmo"
version = "0.1.0"
edition = "2021"
publish = false

[dependencies]
argon2 = "0.5"
axum = "=0.8.9"
base64 = "=0.22.1"
clap = { version = "=4.6.7", features = ["derive"] }
ed25519-dalek = "=2.2.0"
fips205 = "=0.4.1"
hex = "=0.4.3"
rand_core = { version = "=0.6.4", features = ["getrandom"] }
rpassword = "=7.5.4"
serde = { version = "=1.0.229", features = ["derive"] }
serde_json = "=1.0.154"
sha2 = "=0.10.9"
similar = "=2.7.0"
thiserror = "=2.0.21"
tokio = { version = "=1.54.1", features = ["rt-multi-thread", "macros", "net", "signal", "sync"] }
tokio-stream = { version = "=0.1.19", features = ["sync"] }
zstd = "=0.13.4"

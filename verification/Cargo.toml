[package]
name = "modelflat_bot"
version = "0.1.0"
edition = "2021"
publish = false

[dependencies]
chashmap = "2.2"
rlua = "0.19"
tokio = { version = "1", features = ["rt-multi-thread", "time", "sync", "net"] }
futures = "0.3"
async-tungstenite = { version = "*", features = ["tokio-runtime", "tokio-rustls-webpki-roots"] }
async-trait = "0.1"
url = "2"
reqwest = { version = "0.12", default-features = false, features = ["json", "rustls-tls"] }
serde = { version = "1", features = ["derive"] }
structopt = "0.3"
log = "0.4"
env_logger = "0.11"

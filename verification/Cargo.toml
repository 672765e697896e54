[package]
name = "mles_relay"
version = "0.1.0"
edition = "2021"
publish = false

[dependencies]
base64 = "0.22"
blake2 = "0.10"
chacha20poly1305 = "0.10"
chrono = "0.4"
clap = { version = "4", features = ["derive"] }
crossterm = "0.28"
futures-util = "0.3"
indexmap = "2"
rand = "0.8"
rpassword = "7"
rumqttc = "0.24"
scrypt = "0.11"
serde_json = "1"
siphasher = "1"
tokio = { version = "1", features = ["full"] }
tokio-tungstenite = "0.23"
url = "2"

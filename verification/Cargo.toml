[package]
name = "staafmixer"
version = "0.1.0"
edition = "2021"
publish = false

[dependencies]
async-trait = "=0.1.92"
byteorder = "=1.5.0"
bytes = "=0.6.0"
crossbeam-channel = "=0.5.17"
dashmap = "5"
discortp = "=0.6.0"
futures = "=0.3.34"
glib-sys = "=0.10.1"
hex = "=0.4.3"
janus-plugin = "=0.13.0"
janus-plugin-sys = "=0.8.0"
lazy_static = "=1.5.1"
net2 = "=0.2.39"
rand = "=0.7.3"
ring = "=0.16.20"
serde = { version = "=1.0.229", features = ["derive"] }
serde_json = "=1.0.154"
tokio = { version = "=0.2.25", features = ["full"] }
tokio-tungstenite = "=0.11.0"

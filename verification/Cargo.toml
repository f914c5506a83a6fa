[package]
name = "logviewer"
version = "0.1.0"
edition = "2021"
publish = false

[dependencies]
regex = "=1.13.1"
serde = "=1.0.229"
serde_json = "=1.0.151"
serde_derive = "=1.0.229"
clap = "=4.6.7"
tokio = { version = "=1.53.2", features = ["rt"] }
warp = { version = "=0.4.3", features = ["server"] }

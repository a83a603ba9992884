[package]
name = "rustdecks"
version = "0.1.0"
edition = "2021"
publish = false

[dependencies]
serde = { version = "1", features = ["derive"] }
serde_json = "1"
serde_yaml_ng = "0.10"
serialport = { version = "4", default-features = false }
tungstenite = "0.24"
ureq = { version = "2", default-features = false, features = ["json"] }
fontdue = "0.9"
ratatui = "0.29"

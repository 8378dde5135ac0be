[package]
name = "smsgate"
version = "0.1.0"
edition = "2021"
publish = false

[dependencies]
serde = { version = "1", features = ["derive"] }
serde_json = "1"
log = "0.4"
thiserror = "2"
anyhow = "1"
esp-idf-svc = "*"
esp-idf-hal = "*"
esp-idf-sys = "*"

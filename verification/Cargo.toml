[package]
name = "blockchain_data_storage"
version = "0.1.0"
edition = "2021"
publish = false

[dependencies]
sha2 = "=0.11.0"
hex = "=0.4.3"
log = "=0.4.34"
env_logger = "=0.11.11"
clap = { version = "=4.6.7", features = ["derive"] }
serde = { version = "=1.0.229", features = ["derive"] }
serde_json = "=1.0.151"
base64 = "=0.23.1"
actix-web = "=4.15.0"
actix-cors = "=0.7.2"

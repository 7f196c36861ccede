[package]
name = "ludusavi"
version = "0.1.0"
edition = "2021"
publish = false

[dependencies]
chrono = "=0.4.45"
miniz_oxide = "*"
clap = { version = "=4.6.7", features = ["derive"] }
clap_complete = "=4.6.11"
dialoguer = "=0.12.0"
indicatif = "=0.18.6"
log = "=0.4.34"
rayon = "=1.12.0"
serde = { version = "=1.0.229", features = ["derive"] }
serde_json = "=1.0.151"
serde_yaml = "=0.9.34"

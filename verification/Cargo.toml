[package]
name = "timemd"
version = "0.1.0"
edition = "2021"
publish = false

[dependencies]
chrono = "=0.4.45"
chrono-tz = "=0.10.4"
iana-time-zone = "=0.1.65"
yaml_serde = "=0.10.7"
serde = { version = "=1.0.229", features = ["derive"] }
clap = { version = "=4.6.7", features = ["derive", "env"] }

[package]
name = "suricasta_rules"
version = "0.1.0"
edition = "2021"
publish = false

[dependencies]
anyhow = "=1.0.104"
chrono = "=0.4.45"
clap = { version = "=4.6.7", features = ["derive"] }
colored = "=3.1.1"
directories = "=6.0.0"
flate2 = "=1.1.10"
indicatif = "=0.18.6"
inquire = "=0.9.4"
md5 = "=0.8.1"
reqwest = { version = "=0.13.5", default-features = false, features = ["blocking", "native-tls"] }
serde = { version = "=1.0.229", features = ["derive"] }
serde_yaml = "=0.9.34"
tar = "=0.4.46"
tracing = "=0.1.44"
tracing-subscriber = { version = "=0.3.23", features = ["env-filter"] }
zip = { version = "=8.6.0", default-features = false, features = ["deflate"] }

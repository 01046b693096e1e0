[package]
name = "eurus"
version = "0.1.0"
edition = "2021"
publish = false

[dependencies]
clap = { version = "=4.6.7", features = ["derive"] }
cliclack = "=0.5.6"
color-eyre = "=0.6.5"
directories = "=6.0.0"
docker-compose-types = "=0.24.0"
indexmap = "=2.14.2"
reqwest = { version = "=0.12.28", default-features = false, features = ["blocking", "json", "rustls-tls"] }
serde = { version = "=1.0.229", features = ["derive"] }
serde_json = "=1.0.151"
serde_yml = "=0.0.13"

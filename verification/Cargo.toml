[package]
name = "meilisearch-cli"
version = "0.1.0"
edition = "2021"
publish = false

[dependencies]
uuid-b64 = "=0.2.0"
serde = { version = "=1.0.229", features = ["derive"] }
serde_json = "=1.0.151"
glob = "=0.3.4"
shellexpand = "=2.1.2"
structopt = "=0.3.26"
url = "=2.5.8"
reqwest = { version = "=0.11.27", default-features = false, features = ["blocking"] }
termion = "=1.5.6"
tui = { version = "=0.16.0", default-features = false, features = ["termion"] }
color-eyre = "=0.6.5"
eyre = "=0.6.14"

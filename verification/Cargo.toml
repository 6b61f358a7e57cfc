[package]
name = "ferrite_chatter"
version = "0.1.0"
edition = "2021"
publish = false

[dependencies]
serde_json = { version = "=1.0.151", features = ["preserve_order"] }
serde = { version = "=1.0.229", features = ["derive"] }
serde_yaml = "=0.9.34"
anyhow = "=1.0.104"
clap = { version = "=4.6.7", features = ["derive"] }
inquire = { version = "=0.9.4", features = ["editor"] }
openai = "=1.1.1"
rand = "=0.9.5"
reqwest = { version = "=0.12.28", features = ["json", "multipart", "stream"] }
tokio = { version = "=1.53.2", features = ["full"] }
futures-util = "=0.3.34"
viuer = { version = "=0.11.0", features = ["print-file"] }
base64 = "=0.23.1"

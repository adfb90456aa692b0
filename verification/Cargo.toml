[package]
name = "dht_core"
version = "0.1.0"
edition = "2021"
publish = false

[dependencies]
rand = "=0.10.3"
tokio = { version = "*", features = ["full"] }
actix-web = "*"
clap = { version = "*", features = ["derive"] }
discv5 = "=0.12.0"
enr = "=0.14.0"
eyre = "*"
serde = { version = "*", features = ["derive"] }
serde_json = "*"
tracing = "*"
tracing-subscriber = { version = "*", features = ["env-filter"] }

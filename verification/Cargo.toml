[package]
name = "logiclink_desk"
version = "0.1.0"
edition = "2021"
publish = false

[dependencies]
anyhow = "1"
btleplug = "0.11"
clap = { version = "4", features = ["derive"] }
futures = "0.3"
hex = "0.4"
rand = "0.8"
serde = { version = "1", features = ["derive"] }
serde_json = "1"
thiserror = "2"
tokio = { version = "1", features = ["macros", "rt-multi-thread", "time", "sync"] }
uuid = "1"

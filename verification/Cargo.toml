[package]
name = "soyjot"
version = "0.1.0"
edition = "2021"
publish = false

[dependencies]
sha2 = "0.10"
tokio = { version = "1", features = ["sync", "time", "rt-multi-thread", "macros"] }
actix-web = "4"
serde = { version = "1", features = ["derive"] }
serde_json = "1"
config = "*"

[package]
name = "titan_db"
version = "0.1.0"
edition = "2021"
publish = false

[dependencies]
serde = { version = "1", features = ["derive"] }
serde_json = "1"
thiserror = "1"
parking_lot = "0.12"
sqlparser = "0.39"
tokio = { version = "1", features = ["full"] }
warp = "0.3"
futures = "0.3"

[package]
name = "listing_sync"
version = "0.1.0"
edition = "2021"
publish = false

[dependencies]
hifitime = "*"
uuid = "*"
squareup = "*"
tokio = { version = "*", features = ["full"] }
futures = "*"
serde = { version = "*", features = ["derive"] }
serde_json = "*"

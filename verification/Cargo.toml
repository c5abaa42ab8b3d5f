[package]
name = "seat_allocator"
version = "0.1.0"
edition = "2021"
publish = false

[dependencies]
futures-util = "*"
serde = { version = "*", features = ["derive"] }
serde_json = "*"
tokio = { version = "*", features = ["rt-multi-thread", "net", "macros", "time", "sync"] }
tokio-tungstenite = "*"
tungstenite = "*"

[package]
name = "thingdb"
version = "0.1.0"
edition = "2021"
publish = false

[dependencies]
serde = { version = "=1.0.229", features = ["derive"] }
postcard = { version = "=1.1.3", features = ["alloc"] }
tokio = { version = "=1.54.1", features = ["rt-multi-thread", "macros", "sync"] }

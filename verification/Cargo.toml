[package]
name = "timeline_editing"
version = "0.1.0"
edition = "2021"
publish = false

[dependencies]
hashbrown = "=0.15.5"
uuid = { version = "1", features = ["v4"] }

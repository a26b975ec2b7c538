[package]
name = "streak_codec"
version = "0.1.0"
edition = "2021"
publish = false

[dependencies]
poise = "0.5"
serde = { version = "1", features = ["derive"] }
serde_derive = "1"
thiserror = "1"

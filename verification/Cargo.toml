[package]
name = "dioxus-mosaic"
version = "0.1.0"
edition = "2021"
publish = false

[dependencies]
dioxus = "0.6"
serde = { version = "1", features = ["derive"] }

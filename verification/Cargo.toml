[package]
name = "blackjack"
version = "0.1.0"
edition = "2021"
publish = false

[dependencies]
rand = "0.8"
serde = { version = "1", features = ["derive"] }
serde_json = "1"
uuid = { version = "1", features = ["v4"] }
eframe = { version = "0.27", default-features = false, features = ["glow", "default_fonts"] }
wasm-bindgen-futures = "0.4"

[package]
name = "shipping_rates"
version = "0.1.0"
edition = "2021"
publish = false

[dependencies]
rust_iso3166 = "*"
serde = { version = "1", features = ["derive"] }
serde_json = "1"
typeshare = "1"

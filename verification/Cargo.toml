[package]
name = "json_array_stream"
version = "0.1.0"
edition = "2021"
publish = false

[dependencies]
chrono = { version = "0.4", default-features = false, features = ["clock"] }
flate2 = "1"
nom = "7"

[package]
name = "guillotiere"
version = "0.1.0"
edition = "2021"
publish = false

[dependencies]
clap = "2.33"
euclid = "0.22"
ron = "0.8"
serde = { version = "1.0", features = ["derive"] }

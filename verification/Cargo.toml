[package]
name = "autobricks-dns"
version = "1.0.0"
edition = "2021"
publish = false

[dependencies]
rust-ini = "*"
serde = { version = "1", features = ["derive"] }
serde_json = "1"
socket2 = { version = "*", features = ["all"] }

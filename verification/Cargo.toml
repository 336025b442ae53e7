[package]
name = "order_split"
version = "0.1.0"
edition = "2021"
publish = false

[dependencies]
rust_xlsxwriter = "*"
calamine = "*"
base64 = "*"
serde = { version = "*", features = ["derive"] }
serde_json = "*"

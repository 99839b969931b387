[package]
name = "supervisor_schema"
version = "0.1.0"
edition = "2021"
publish = false

[dependencies]
byteorder = "1"
sha2 = "0.10"
serde = { version = "1", features = ["derive"] }

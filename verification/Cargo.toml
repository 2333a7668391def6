[package]
name = "proguard"
version = "0.1.0"
edition = "2021"
publish = false

[dependencies]
uuid = { version = "1", features = ["v5"] }
watto = { version = "0.1", features = ["writer", "strings"] }

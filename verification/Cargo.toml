[package]
name = "pnet_filesync"
version = "0.1.0"
edition = "2021"
publish = false

[dependencies]
ctrlc = "3"
getrandom = "0.2"
serde = { version = "1", features = ["derive"] }
serde_json = "1"
sha2 = "0.10"

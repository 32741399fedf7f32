[package]
name = "slackbase"
version = "0.1.0"
edition = "2021"
publish = false

[dependencies]
base64 = "0.22"
hex = "0.4"
lru = "0.12"
memmap2 = "0.9"
mlua = { version = "0.9", features = ["lua54", "vendored"] }
prettytable-rs = "0.10"
serde = { version = "1", features = ["derive"] }
serde_json = "1"
sha1 = "0.10"

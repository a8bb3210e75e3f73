[package]
name = "edisonprompt"
version = "0.1.0"
edition = "2021"
publish = false

[dependencies]
uuid = { version = "*", features = ["v4"] }
chrono = "*"
serde = { version = "*", features = ["derive"] }
serde_json = "*"
clap = { version = "*", features = ["derive"] }
clap_complete = "*"
colored = "*"
directories = "*"
toml = "*"
tempfile = "*"
arboard = { version = "*", default-features = false }

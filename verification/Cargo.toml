[package]
name = "chrome"
version = "0.1.0"
edition = "2021"
publish = false

[dependencies]
serde_json = "*"
serde_urlencoded = "*"
url = "*"
clap = "*"
http = "0.2"
actix-web = { version = "*", default-features = false }
awc = { version = "*", default-features = false }
bytes = "*"

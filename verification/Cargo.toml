[package]
name = "rest_in_rust"
version = "0.1.0"
edition = "2021"
publish = false

[dependencies]
sha1 = "0.6"
mime_guess = "2"
mime-sniffer = "0.1"
serde = "1"
serde_json = "1"
state = "*"

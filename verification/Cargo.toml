[package]
name = "vimsnitch"
version = "0.1.0"
edition = "2021"
publish = false

[dependencies]
glob = "*"
ansi_term = "*"
futures = "*"
git2 = "*"
http-types = "*"
serde = { version = "*", features = ["derive"] }
serde_json = "*"
smol = "*"
surf = "*"

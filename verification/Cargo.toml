[package]
name = "random_mythos"
version = "0.1.0"
edition = "2021"
publish = false

[dependencies]
rand = "0.7"
serde = { version = "1", features = ["derive"] }
serde_derive = "1"
serde_json = "1"
docopt = "1"
log = "0.4"
simplelog = "*"

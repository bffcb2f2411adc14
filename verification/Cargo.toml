[package]
name = "dominoes"
version = "0.1.0"
edition = "2021"
publish = false

[dependencies]
clap = { version = "4", default-features = false, features = ["std", "help", "usage", "error-context"] }
ego-tree = { version = "0.10", features = ["serde"] }
multimap = { version = "0.10", default-features = false }
rand = "0.9"
rand_chacha = "0.9"
serde = { version = "1", features = ["derive"] }
serde_json = "1"
static_assertions = "1"

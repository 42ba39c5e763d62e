[package]
name = "transitive_frontier"
version = "0.1.0"
edition = "2021"
publish = false

[dependencies]
guppy = "*"
horrorshow = "*"
serde = { version = "*", features = ["derive"] }
serde_json = "*"
structopt = "*"
toml = "*"

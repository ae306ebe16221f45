[package]
name = "dephell"
version = "0.1.0"
edition = "2021"
publish = false

[dependencies]
askama = "*"
camino = "*"
cargo_metadata = "*"
chrono = "*"
clap = "*"
geiger = "*"
glob = "*"
guppy = "*"
ignore = "*"
loc = "*"
regex = "*"
reqwest = { version = "*", features = ["blocking", "json"] }
serde = { version = "*", features = ["derive"] }
serde_json = "*"
tempdir = "*"

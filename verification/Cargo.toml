[package]
name = "reddoc"
version = "0.1.0"
edition = "2021"
publish = false

[dependencies]
atty = "0.2"
chrono = { version = "0.4", features = ["serde"] }
clap = { version = "4", features = ["cargo"] }
regex = "1"
serde = { version = "1", features = ["derive"] }
serde_json = "1"

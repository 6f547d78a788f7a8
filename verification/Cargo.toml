[package]
name = "fgm"
version = "0.1.0"
edition = "2021"
publish = false

[dependencies]
anyhow = "*"
clap = { version = "*", features = ["derive"] }
clap_complete = "*"
dirs = "*"
flate2 = "*"
reqwest = { version = "*", features = ["blocking"] }
scraper = "*"
serde = { version = "*", features = ["derive"] }
tar = "*"
toml = "*"

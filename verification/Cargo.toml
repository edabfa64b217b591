[package]
name = "crawl_race"
version = "0.1.0"
edition = "2021"
publish = false

[dependencies]
anyhow = "1"
batbox = "*"
clap = { version = "4", features = ["derive"] }
ctrlc = "3"
futures = "0.3"
geng-net = "*"
serde = { version = "1", features = ["derive"] }
web-sys = "0.3"

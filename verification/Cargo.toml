[package]
name = "exomem"
version = "0.1.0"
edition = "2021"
publish = false

[dependencies]
scraper = "*"
ureq = "2"
glob = "0.3"
clap = { version = "4", features = ["derive"] }
rustyline = "12"
rustyline-derive = "*"
clipboard = "0.5"

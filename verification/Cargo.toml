[package]
name = "yeetseeker"
version = "0.1.0"
edition = "2021"
publish = false

[dependencies]
anyhow = "1"
chrono = "0.4"
clap = { version = "4", features = ["derive"] }
dialoguer = "*"
flate2 = "1"
quick-xml = { version = "*", features = ["serialize"] }
rust_xlsxwriter = "*"
serde = { version = "1", features = ["derive"] }
spinoff = "*"
ureq = "2"

[package]
name = "greep"
version = "0.1.0"
edition = "2021"
publish = false

[dependencies]
clap = { version = "4", features = ["derive"] }
memmap2 = "0.9"
thiserror = "2"

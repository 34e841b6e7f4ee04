[package]
name = "jade"
version = "0.1.0"
edition = "2021"
publish = false

[dependencies]
clap = "=3.2.25"
quote = "=1.0.47"
syn = { version = "=2.0.119", features = ["full"] }

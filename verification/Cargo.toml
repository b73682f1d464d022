[package]
name = "antc"
version = "0.1.0"
edition = "2021"
publish = false

[dependencies]
indexmap = "=2.14.2"
clap = { version = "=4.6.7", features = ["derive"] }
cranelift = "=0.131.3"
cranelift-module = "=0.131.3"

[package]
name = "oxyromon"
version = "0.1.0"
edition = "2021"
publish = false

[dependencies]
regex = "1"
clap = "3.2"
indicatif = "0.17"
simple-error = "0.3"
tokio = { version = "1", features = ["process", "rt", "macros"] }

[package]
name = "cool_diff"
version = "0.1.0"
edition = "2021"
publish = false

[dependencies]
serde_json = "1"
snafu = "0.8"

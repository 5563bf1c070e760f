[package]
name = "svgit"
version = "0.1.0"
edition = "2021"
publish = false

[dependencies]
image = { version = "0.25", default-features = false }
ort = { version = "=2.0.0-rc.10", default-features = false, features = ["std", "load-dynamic"] }

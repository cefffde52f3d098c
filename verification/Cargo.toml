[package]
name = "patch_refiner"
version = "0.1.0"
edition = "2021"
publish = false

[dependencies]
diffy = "*"
prettydiff = "*"
serde = { version = "*", features = ["derive"] }
serde_json = "*"
clap = { version = "*", features = ["derive"] }
thiserror = "*"
anyhow = "*"
wait-timeout = "*"

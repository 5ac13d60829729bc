[package]
name = "anim_splice"
version = "0.1.0"
edition = "2021"
publish = false

[dependencies]
ssbh_lib = "*"
ssbh_data = "*"
anyhow = "*"
clap = { version = "*", features = ["derive"] }

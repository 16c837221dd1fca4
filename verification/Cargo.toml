[package]
name = "ulam_spiral"
version = "0.1.0"
edition = "2021"
publish = false

[dependencies]
array2d = "*"
clap = { version = "*", features = ["derive"] }
image = { version = "*", default-features = false, features = ["png"] }
primal = "*"

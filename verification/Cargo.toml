[package]
name = "rustpass"
version = "0.1.0"
edition = "2021"
publish = false

[dependencies]
argon2 = "*"
chacha20poly1305 = "*"
rand = "*"
anyhow = "*"
chrono = "*"
clap = { version = "*", features = ["derive"] }
colored = "*"
directories = "*"
rpassword = "*"

[package]
name = "awari"
version = "0.1.0"
edition = "2021"
publish = false

[dependencies]
libc = "=0.2.191"
rand = "=0.8.8"
slog = "=2.8.2"
slog-json = "=2.6.1"
tempfile = "=3.27.0"

[dev-dependencies]
quickcheck = "=1.1.0"

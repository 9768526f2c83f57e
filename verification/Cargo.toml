[package]
name = "wlt-mitm"
version = "0.1.0"
edition = "2021"
publish = false

[dependencies]
rustix = { version = "=1.1.5", features = ["event", "net"] }
snafu = "=0.8.9"
wayland-backend = "=0.3.17"

[package]
name = "gamescope-led-sync"
version = "0.1.0"
edition = "2021"
publish = false

[dependencies]
clap = { version = "4", features = ["derive"] }
libc = "0.2"
pipewire = "0.9"
thiserror = "2"
tracing = "0.1"
tracing-subscriber = "0.3"

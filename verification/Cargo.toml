[package]
name = "ctrl_space"
version = "0.1.0"
edition = "2021"
publish = false

[dependencies]
dirs = "*"
fontdue = "*"
libc = "*"
serde = { version = "*", features = ["derive"] }
toml = "*"
x11rb = { version = "*", features = ["randr"] }

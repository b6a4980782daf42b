[package]
name = "sirula"
version = "0.1.0"
edition = "2021"
publish = false

[dependencies]
regex = "*"
titlecase = "*"
libc = "*"
xdg = "*"
toml = "*"
serde = "*"
serde_derive = "*"
clap = { version = "*", features = ["derive"] }
shlex = "*"
which = "*"
freedesktop-desktop-entry = "*"

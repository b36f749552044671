[package]
name = "wavebars"
version = "0.1.0"
edition = "2021"
publish = false

[dependencies]
audioviz = { version = "=0.6.0", default-features = false, features = ["spectrum"] }
clap = { version = "=4.6.7", features = ["derive"] }
color-eyre = "=0.6.5"
ratatui = "=0.30.2"
rodio = "=0.22.2"

[package]
name = "viy"
version = "0.1.0"
edition = "2021"
publish = false

[dependencies]
clap = { version = "4", features = ["derive"] }
libc = "0.2"
nix = { version = "*", features = ["signal", "process"] }
owo-colors = "4"
procfs = "*"
serde = { version = "1", features = ["derive"] }
serde_json = "1"

[package]
name = "jieplag"
version = "0.1.0"
edition = "2021"
publish = false

[dependencies]
actix-http = "=3.18.12"
adler32 = "=1.2.0"
anyhow = "=1.0.104"
clap = { version = "=4.6.7", features = ["derive"] }
env_logger = "=0.11.11"
html-escape = "=0.2.15"
indicatif = "=0.18.6"
log = "=0.4.34"
random_color = "=1.1.0"
regex = "=1.13.1"
tree-sitter = "=0.27.0"
tree-sitter-python = "=0.25.0"
uuid = { version = "=1.27.0", features = ["v4"] }
walkdir = "=2.5.0"

[package]
name = "sa_git_hook"
version = "0.1.0"
edition = "2021"
publish = false

[dependencies]
clap = { version = "2", default-features = false }
dirs = "=7.0.0"
reqwest = { version = "=0.12.28", default-features = false, features = ["blocking", "rustls-tls"] }

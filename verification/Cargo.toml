[package]
name = "rusty_file_sync"
version = "0.1.0"
edition = "2021"
publish = false

[dependencies]
sha2 = "*"
clap = "*"
ctrlc = "*"
env_logger = "*"
log = "*"
thiserror = "*"
tokio = { version = "*", features = ["full"] }
walkdir = "*"

[package]
name = "largest_dirs"
version = "0.1.0"
edition = "2021"
publish = false

[dependencies]
clap = "4"
fs_extra = "1"
tokio = { version = "1", features = ["rt-multi-thread", "macros", "sync"] }
walkdir = "2"

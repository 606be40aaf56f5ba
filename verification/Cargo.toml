[package]
name = "ink_runner"
version = "0.1.0"
edition = "2021"
publish = false

[dependencies]
unicode-segmentation = "1"
serde = { version = "1", features = ["derive"] }
ron = "0.7"
walkdir = "2"
clap = { version = "3", features = ["derive"] }
tokio = { version = "1", features = ["macros", "rt-multi-thread"] }
serenity = "0.10"
